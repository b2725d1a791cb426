//! Everything an edge memory stores per class, and where each slice of it lies.

use crate::edge::store::ClassStore;
use vstd::prelude::*;

verus! {

/// The sizes that decide where things lie.
#[derive(Clone, Copy, Debug, PartialEq, Eq, Structural)]
pub struct Shape {
    /// How many edges the ring has.
    pub n_edges: usize,
    /// The width of a payload.
    pub d: usize,
    /// How many targets a readout scores.
    pub vocab: usize,
    /// One edge memory for all classes; the readout stays per class.
    pub share_edge: bool,
    /// A readout for each class, rather than one for all.
    pub class_readout: bool,
}

impl Shape {
    /// The entries of all edge memories of a class.
    pub open spec fn edge_run(self) -> int {
        self.n_edges * (self.d * self.d)
    }

    /// The entries of a readout.
    pub open spec fn readout_run(self) -> int {
        self.vocab * self.d
    }

    /// Whether `classes` classes can be held in memory.
    pub open spec fn fits(self, classes: int) -> bool {
        &&& self.d * self.d <= usize::MAX
        &&& self.edge_run() <= usize::MAX
        &&& self.readout_run() <= usize::MAX
        &&& classes <= usize::MAX
        &&& classes * self.n_edges <= usize::MAX
        &&& classes * self.edge_run() <= usize::MAX
        &&& classes * self.readout_run() <= usize::MAX
        &&& classes * self.d <= usize::MAX
    }

    /// The number of the slice of an edge and a class.
    ///
    /// Class-major: the number does not depend on how many classes there are.
    pub open spec fn slot_of(self, eid: int, c: int) -> int {
        if self.share_edge {
            eid
        } else {
            c * self.n_edges + eid
        }
    }

    /// Where the readout of a class starts.
    pub open spec fn readout_at(self, c: int) -> int {
        if self.class_readout {
            c * self.readout_run()
        } else {
            0
        }
    }
}

proof fn lemma_slot_bound(s: Shape, classes: int, eid: int, c: int)
    requires
        0 <= eid < s.n_edges,
        0 <= c < classes,
    ensures
        0 <= s.slot_of(eid, c) < classes * s.n_edges,
        0 <= c * s.n_edges < classes * s.n_edges,
{
    assert(c * s.n_edges + s.n_edges <= classes * s.n_edges) by (nonlinear_arith)
        requires
            c + 1 <= classes,
            0 <= s.n_edges,
    ;
    assert(0 <= c * s.n_edges) by (nonlinear_arith)
        requires
            0 <= c,
            0 <= s.n_edges,
    ;
}

/// Distinct edges of one class have distinct slices; so do distinct pairs of an
/// edge and a class, unless the classes share their edge memory.
pub proof fn law_slots_are_distinct(s: Shape, e: int, c: int, f: int, k: int)
    requires
        0 <= e < s.n_edges,
        0 <= f < s.n_edges,
        0 <= c,
        0 <= k,
        s.slot_of(e, c) == s.slot_of(f, k),
    ensures
        e == f,
        s.share_edge || c == k,
{
    if !s.share_edge {
        crate::edge::store::law_runs_are_disjoint(s.n_edges as int, c, k, e, f);
    }
}

/// Everything that is held once per class.
#[derive(Clone, Debug)]
pub struct Slices<T> {
    /// The sizes that decide where things lie.
    pub shape: Shape,
    /// How many classes there are.
    pub classes: usize,
    /// `E[class, edge]`, each a d x d associative memory.
    pub edge_mem: ClassStore<T>,
    /// The deferred decay of each edge slice.
    pub edge_scale: ClassStore<T>,
    /// Traffic per slice.
    pub usage: ClassStore<T>,
    /// The readouts.
    pub readout: ClassStore<T>,
    /// The reservoirs behind the readouts.
    pub rungs: Vec<ClassStore<T>>,
    /// The deferred decay of each readout.
    pub readout_scale: ClassStore<T>,
    /// The class prototypes.
    pub proto: ClassStore<T>,
}

/// How many reservoirs stand behind a readout with `rungs` rungs.
pub open spec fn hidden_rungs(rungs: int, class_readout: bool) -> int {
    if rungs > 1 && class_readout {
        rungs - 1
    } else {
        0
    }
}

/// A store whose entries are those of another, with runs of `fill` appended.
pub open spec fn grown<T: Copy>(
    now: ClassStore<T>,
    was: ClassStore<T>,
    extra: int,
    fill: T,
) -> bool {
    now@ == was@ + Seq::new((extra * was.run()) as nat, |i: int| fill)
}

impl<T: Copy> Slices<T> {
    /// Each store has its runs for every class.
    pub open spec fn wf(&self) -> bool {
        let n = self.classes as int;
        let own = if self.shape.class_readout {
            n
        } else {
            1
        };
        &&& self.shape.fits(n)
        &&& n >= 1
        &&& self.edge_mem.wf() && self.edge_mem.count() == n && self.edge_mem.run()
            == self.shape.edge_run()
        &&& self.edge_scale.wf() && self.edge_scale.count() == n && self.edge_scale.run()
            == self.shape.n_edges
        &&& self.usage.wf() && self.usage.count() == n && self.usage.run() == self.shape.n_edges
        &&& self.readout.wf() && self.readout.count() == own && self.readout.run()
            == self.shape.readout_run()
        &&& forall|k: int|
            0 <= k < self.rungs@.len() ==> (#[trigger] self.rungs@[k]).wf() && self.rungs@[k].count()
                == n && self.rungs@[k].run() == self.shape.readout_run()
        &&& self.rungs@.len() > 0 ==> self.shape.class_readout
        &&& self.readout_scale.wf() && self.readout_scale.run() == 1
            && self.readout_scale.count() >= own
        &&& self.shape.class_readout ==> self.readout_scale.count() == n
        &&& self.proto.wf() && self.proto.count() == n && self.proto.run() == self.shape.d
    }

    /// Storage for `classes` classes. Weights, traffic and prototypes start at
    /// `zero`, scales at `one`.
    pub fn new(shape: Shape, classes: usize, rungs: usize, zero: T, one: T) -> (s: Self)
        requires
            classes >= 1,
            shape.fits(classes as int),
        ensures
            s.wf(),
            s.shape == shape,
            s.classes == classes,
            s.edge_mem@ == Seq::new((classes * shape.edge_run()) as nat, |i: int| zero),
            s.edge_scale@ == Seq::new((classes * shape.n_edges) as nat, |i: int| one),
            s.usage@ == Seq::new((classes * shape.n_edges) as nat, |i: int| zero),
            s.readout@ == Seq::new(
                ((if shape.class_readout {
                    classes as int
                } else {
                    1
                }) * shape.readout_run()) as nat,
                |i: int| zero,
            ),
            s.rungs@.len() == hidden_rungs(rungs as int, shape.class_readout),
            forall|k: int|
                0 <= k < s.rungs@.len() ==> (#[trigger] s.rungs@[k])@ == Seq::new(
                    (classes * shape.readout_run()) as nat,
                    |i: int| zero,
                ),
            s.readout_scale@ == Seq::new(classes as nat, |i: int| one),
            s.proto@ == Seq::new((classes * shape.d) as nat, |i: int| zero),
    {
        let block: usize = shape.d * shape.d;
        let edge_run: usize = shape.n_edges * block;
        let read_run: usize = shape.vocab * shape.d;
        let own: usize = if shape.class_readout {
            classes
        } else {
            1
        };
        let mut hidden: Vec<ClassStore<T>> = Vec::new();
        if shape.class_readout {
            let mut k: usize = 1;
            while k < rungs
                invariant
                    1 <= k,
                    k <= rungs || (rungs == 0 && k == 1),
                    hidden@.len() == k - 1,
                    classes * read_run <= usize::MAX,
                    read_run == shape.readout_run(),
                    forall|j: int|
                        0 <= j < hidden@.len() ==> (#[trigger] hidden@[j]).wf()
                            && hidden@[j].count() == classes && hidden@[j].run() == read_run
                            && hidden@[j]@ == Seq::new(
                            (classes * shape.readout_run()) as nat,
                            |i: int| zero,
                        ),
                decreases rungs - k,
            {
                hidden.push(ClassStore::new(classes, read_run, zero));
                k = k + 1;
            }
        }
        proof {
            assert(1 * read_run == read_run) by (nonlinear_arith);
            assert(classes * 1 == classes) by (nonlinear_arith);
        }
        Slices {
            shape,
            edge_mem: ClassStore::new(classes, edge_run, zero),
            edge_scale: ClassStore::new(classes, shape.n_edges, one),
            usage: ClassStore::new(classes, shape.n_edges, zero),
            readout: ClassStore::new(own, read_run, zero),
            rungs: hidden,
            readout_scale: ClassStore::new(classes, 1, one),
            proto: ClassStore::new(classes, shape.d, zero),
            classes,
        }
    }

    /// Whether this is `was` with `extra` classes appended, and nothing else
    /// changed.
    pub open spec fn appended(&self, was: &Self, extra: int, zero: T, one: T) -> bool {
        &&& self.shape == was.shape
        &&& self.classes == was.classes + extra
        &&& grown(self.edge_mem, was.edge_mem, extra, zero)
        &&& grown(self.edge_scale, was.edge_scale, extra, one)
        &&& grown(self.usage, was.usage, extra, zero)
        &&& grown(self.proto, was.proto, extra, zero)
        &&& self.rungs@.len() == was.rungs@.len()
        &&& if was.shape.class_readout {
            &&& grown(self.readout, was.readout, extra, zero)
            &&& grown(self.readout_scale, was.readout_scale, extra, one)
            &&& forall|k: int|
                0 <= k < was.rungs@.len() ==> grown(
                    #[trigger] self.rungs@[k],
                    was.rungs@[k],
                    extra,
                    zero,
                )
        } else {
            &&& self.readout == was.readout
            &&& self.readout_scale == was.readout_scale
        }
    }

    /// Everything that is read for a fact of a class.
    pub open spec fn part(&self, c: int) -> Part<T> {
        let e = if self.shape.share_edge {
            0
        } else {
            c
        };
        let r = if self.shape.class_readout {
            c
        } else {
            0
        };
        Part {
            edge_mem: run_at(self.edge_mem, e, self.shape.edge_run()),
            edge_scale: run_at(self.edge_scale, e, self.shape.n_edges as int),
            readout: run_at(self.readout, r, self.shape.readout_run()),
            readout_scale: run_at(self.readout_scale, r, 1),
            rungs: Seq::new(
                self.rungs@.len(),
                |k: int| run_at(self.rungs@[k], c, self.shape.readout_run()),
            ),
            proto: run_at(self.proto, c, self.shape.d as int),
        }
    }

    /// Appends `extra` classes at run time. A new class is a pure append: every
    /// entry that was there keeps its place and its value.
    pub fn expand_classes(&mut self, extra: usize, zero: T, one: T)
        requires
            old(self).wf(),
            old(self).shape.fits(old(self).classes + extra),
        ensures
            final(self).wf(),
            final(self).appended(old(self), extra as int, zero, one),
    {
        let ghost was = *self;
        self.edge_mem.expand(extra, zero);
        self.edge_scale.expand(extra, one);
        self.usage.expand(extra, zero);
        self.proto.expand(extra, zero);
        if self.shape.class_readout {
            self.readout.expand(extra, zero);
            proof {
                assert((self.classes + extra) * 1 == self.classes + extra) by (nonlinear_arith);
            }
            self.readout_scale.expand(extra, one);
            expand_all(&mut self.rungs, extra, zero);
        }
        self.classes = self.classes + extra;
    }

    /// The number of the slice of an edge and a class.
    pub fn slot(&self, eid: usize, c: usize) -> (s: usize)
        requires
            self.wf(),
            eid < self.shape.n_edges,
            c < self.classes,
        ensures
            s == self.shape.slot_of(eid as int, c as int),
            s < self.classes * self.shape.n_edges,
    {
        proof {
            lemma_slot_bound(self.shape, self.classes as int, eid as int, c as int);
        }
        if self.shape.share_edge {
            eid
        } else {
            c * self.shape.n_edges + eid
        }
    }

    /// Where the d x d block of an edge and a class starts.
    pub fn edge_base(&self, eid: usize, c: usize) -> (i: usize)
        requires
            self.wf(),
            eid < self.shape.n_edges,
            c < self.classes,
        ensures
            i == self.shape.slot_of(eid as int, c as int) * (self.shape.d * self.shape.d),
            i + self.shape.d * self.shape.d <= self.edge_mem@.len(),
    {
        let s: usize = self.slot(eid, c);
        proof {
            self.edge_mem.lemma_len();
            let block = self.shape.d * self.shape.d;
            let all = self.classes * self.shape.n_edges;
            assert(s * block + block <= all * block) by (nonlinear_arith)
                requires
                    s + 1 <= all,
                    0 <= block,
            ;
            assert(all * block == self.classes * (self.shape.n_edges * block)) by (nonlinear_arith)
                requires
                    all == self.classes * self.shape.n_edges,
            ;
            assert(0 <= s * block) by (nonlinear_arith)
                requires
                    0 <= s,
                    0 <= block,
            ;
        }
        s * (self.shape.d * self.shape.d)
    }

    /// Where the readout that a class is read through starts.
    pub fn rbase(&self, c: usize) -> (i: usize)
        requires
            self.wf(),
            c < self.classes,
        ensures
            i == self.shape.readout_at(c as int),
            i + self.shape.readout_run() <= self.readout@.len(),
    {
        if self.shape.class_readout {
            self.readout.offset(c)
        } else {
            self.readout.offset(0)
        }
    }

    /// The class that a slice belongs to.
    pub fn class_of_slot(&self, s: usize) -> (c: usize)
        requires
            self.wf(),
            self.shape.n_edges > 0,
            s < self.classes * self.shape.n_edges,
        ensures
            c == s as int / self.shape.n_edges as int,
            c < self.classes,
    {
        proof {
            assert((s as int / self.shape.n_edges as int) < self.classes) by (nonlinear_arith)
                requires
                    0 <= s < self.classes * self.shape.n_edges,
                    self.shape.n_edges > 0,
            ;
        }
        s / self.shape.n_edges
    }
}

/// Everything that is read for a fact of a class.
#[verifier::ext_equal]
pub struct Part<T> {
    /// The memories of its edges.
    pub edge_mem: Seq<T>,
    /// Their deferred decay.
    pub edge_scale: Seq<T>,
    /// Its readout.
    pub readout: Seq<T>,
    /// The deferred decay of that.
    pub readout_scale: Seq<T>,
    /// The reservoirs behind the readout.
    pub rungs: Seq<Seq<T>>,
    /// Its prototype.
    pub proto: Seq<T>,
}

/// One run of a store.
pub open spec fn run_at<T: Copy>(s: ClassStore<T>, c: int, run: int) -> Seq<T> {
    s@.subrange(c * run, c * run + run)
}

proof fn lemma_run_stays<T: Copy>(
    now: ClassStore<T>,
    was: ClassStore<T>,
    extra: int,
    fill: T,
    c: int,
)
    requires
        was.wf(),
        grown(now, was, extra, fill),
        0 <= c < was.count(),
        0 <= extra,
        0 <= was.run(),
    ensures
        run_at(now, c, was.run()) == run_at(was, c, was.run()),
{
    let run = was.run();
    was.lemma_len();
    assert(0 <= c * run && c * run + run <= was.count() * run) by (nonlinear_arith)
        requires
            0 <= c,
            c + 1 <= was.count(),
            0 <= run,
    ;
    assert(extra * run >= 0) by (nonlinear_arith)
        requires
            0 <= extra,
            0 <= run,
    ;
    assert(run_at(now, c, run) =~= run_at(was, c, run));
}

/// Appended capacity changes no prediction: everything that is read for a fact of
/// a class that was there is what it was, so whatever is computed from it is too.
/// What was appended is zero.
pub proof fn law_expansion_changes_no_prediction<T: Copy, R>(
    was: Slices<T>,
    now: Slices<T>,
    extra: int,
    zero: T,
    one: T,
    c: int,
    predict: spec_fn(Part<T>) -> R,
)
    requires
        was.wf(),
        0 <= extra,
        now.appended(&was, extra, zero, one),
        0 <= c < was.classes,
    ensures
        now.part(c) == was.part(c),
        predict(now.part(c)) == predict(was.part(c)),
        forall|i: int|
            was.edge_mem@.len() <= i < now.edge_mem@.len() ==> #[trigger] now.edge_mem@[i] == zero,
        forall|i: int|
            was.readout@.len() <= i < now.readout@.len() ==> #[trigger] now.readout@[i] == zero,
        extra == 0 ==> now.edge_mem@ == was.edge_mem@ && now.proto@ == was.proto@
            && now.readout@ == was.readout@,
{
    let e = if was.shape.share_edge {
        0
    } else {
        c
    };
    assert(was.shape.edge_run() >= 0) by (nonlinear_arith)
        requires
            was.shape.edge_run() == was.shape.n_edges * (was.shape.d * was.shape.d),
    ;
    assert(was.shape.readout_run() >= 0) by (nonlinear_arith)
        requires
            was.shape.readout_run() == was.shape.vocab * was.shape.d,
    ;
    lemma_run_stays(now.edge_mem, was.edge_mem, extra, zero, e);
    lemma_run_stays(now.edge_scale, was.edge_scale, extra, one, e);
    lemma_run_stays(now.proto, was.proto, extra, zero, c);
    if was.shape.class_readout {
        lemma_run_stays(now.readout, was.readout, extra, zero, c);
        lemma_run_stays(now.readout_scale, was.readout_scale, extra, one, c);
        assert forall|k: int| 0 <= k < was.rungs@.len() implies #[trigger] now.part(c).rungs[k]
            == was.part(c).rungs[k] by {
            assert(was.rungs@[k].wf());
            lemma_run_stays(now.rungs@[k], was.rungs@[k], extra, zero, c);
        }
    }
    assert(now.part(c).rungs =~= was.part(c).rungs);
    if extra == 0 {
        assert(0 * was.edge_mem.run() == 0 && 0 * was.proto.run() == 0 && 0 * was.readout.run()
            == 0) by (nonlinear_arith);
        assert(now.edge_mem@ =~= was.edge_mem@);
        assert(now.proto@ =~= was.proto@);
        assert(now.readout@ =~= was.readout@);
    }
}

/// An unshared slice leads back to its class.
pub proof fn law_slot_knows_its_class(s: Shape, e: int, c: int)
    requires
        !s.share_edge,
        0 <= e < s.n_edges,
        0 <= c,
    ensures
        s.slot_of(e, c) / s.n_edges as int == c,
{
    vstd::arithmetic::div_mod::lemma_fundamental_div_mod_converse(
        c * s.n_edges + e,
        s.n_edges as int,
        c,
        e,
    );
}

/// Appends `extra` runs to every store of a list.
fn expand_all<T: Copy>(stores: &mut Vec<ClassStore<T>>, extra: usize, fill: T)
    requires
        forall|k: int|
            0 <= k < old(stores)@.len() ==> {
                let s = #[trigger] old(stores)@[k];
                &&& s.wf()
                &&& s.count() + extra <= usize::MAX
                &&& (s.count() + extra) * s.run() <= usize::MAX
            },
    ensures
        final(stores)@.len() == old(stores)@.len(),
        forall|k: int|
            0 <= k < old(stores)@.len() ==> {
                let s = #[trigger] final(stores)@[k];
                &&& s.wf()
                &&& s.count() == old(stores)@[k].count() + extra
                &&& s.run() == old(stores)@[k].run()
                &&& grown(s, old(stores)@[k], extra as int, fill)
            },
{
    let ghost was = stores@;
    let n: usize = stores.len();
    let mut k: usize = 0;
    while k < n
        invariant
            k <= n,
            n == was.len(),
            stores@.len() == n,
            forall|j: int|
                0 <= j < n ==> {
                    let s = #[trigger] was[j];
                    &&& s.wf()
                    &&& s.count() + extra <= usize::MAX
                    &&& (s.count() + extra) * s.run() <= usize::MAX
                },
            forall|j: int| k <= j < n ==> #[trigger] stores@[j] == was[j],
            forall|j: int|
                0 <= j < k ==> {
                    let s = #[trigger] stores@[j];
                    &&& s.wf()
                    &&& s.count() == was[j].count() + extra
                    &&& s.run() == was[j].run()
                    &&& grown(s, was[j], extra as int, fill)
                },
        decreases n - k,
    {
        assert(stores@[k as int] == was[k as int]);
        stores[k].expand(extra, fill);
        k = k + 1;
    }
}

/// Where slices lie: the edges of a class follow one another and the classes too,
/// unless they share their edge memory; a readout follows that of the class
/// before, unless there is one for all.
pub proof fn law_slices_follow_one_another(s: Shape, e: int, c: int)
    requires
        0 <= e,
        0 <= c,
    ensures
        s.slot_of(0, 0) == 0,
        s.slot_of(e + 1, c) == s.slot_of(e, c) + 1,
        !s.share_edge ==> s.slot_of(e, c + 1) == s.slot_of(e, c) + s.n_edges,
        s.share_edge ==> s.slot_of(e, c + 1) == s.slot_of(e, c),
        s.readout_at(0) == 0,
        s.class_readout ==> s.readout_at(c + 1) == s.readout_at(c) + s.readout_run(),
        !s.class_readout ==> s.readout_at(c) == 0,
{
    let (n, r) = (s.n_edges as int, s.readout_run());
    assert(0 * n == 0 && (c + 1) * n == c * n + n && 0 * r == 0 && (c + 1) * r == c * r + r)
        by (nonlinear_arith);
}

/// What a class takes: a square of payloads for every edge, and a payload for
/// every target.
pub proof fn law_runs_hold_their_slices(s: Shape)
    requires
        s.n_edges < usize::MAX,
        s.vocab < usize::MAX,
    ensures
        (Shape { n_edges: 0, ..s }).edge_run() == 0,
        (Shape { n_edges: (s.n_edges + 1) as usize, ..s }).edge_run() == s.edge_run() + s.d * s.d,
        (Shape { vocab: 0, ..s }).readout_run() == 0,
        (Shape { vocab: (s.vocab + 1) as usize, ..s }).readout_run() == s.readout_run() + s.d,
{
    let q = s.d * s.d;
    assert(0 * q == 0 && (s.n_edges + 1) * q == s.n_edges * q + q && 0 * s.d == 0 && (s.vocab + 1)
        * s.d == s.vocab * s.d + s.d) by (nonlinear_arith);
}

/// Of so many rungs the first is the readout itself and the others stand behind
/// it, where there is a readout for each class; otherwise none does.
pub proof fn law_rungs_stand_behind_the_readout(rungs: int)
    requires
        1 <= rungs,
    ensures
        1 + hidden_rungs(rungs, true) == rungs,
        hidden_rungs(rungs, false) == 0,
        hidden_rungs(0, true) == 0,
{
}

} // verus!
