//! Storage that lies class by class.

use vstd::prelude::*;

verus! {

/// `classes` runs of `stride` entries, one after the other. A new class goes to
/// the end, so no entry ever moves.
#[derive(Clone, Debug)]
pub struct ClassStore<T> {
    data: Vec<T>,
    stride: usize,
    classes: usize,
}

impl<T> View for ClassStore<T> {
    type V = Seq<T>;

    closed spec fn view(&self) -> Seq<T> {
        self.data@
    }
}

impl<T: Copy> ClassStore<T> {
    /// The length of a run.
    pub closed spec fn run(&self) -> int {
        self.stride as int
    }

    /// The number of runs.
    pub closed spec fn count(&self) -> int {
        self.classes as int
    }

    /// The runs fill the storage.
    pub closed spec fn wf(&self) -> bool {
        self.data@.len() == self.classes * self.stride
    }

    /// `classes` runs of `stride` entries, all of them `fill`.
    pub fn new(classes: usize, stride: usize, fill: T) -> (s: Self)
        requires
            classes * stride <= usize::MAX,
        ensures
            s.wf(),
            s.count() == classes,
            s.run() == stride,
            s@ == Seq::new((classes * stride) as nat, |i: int| fill),
    {
        let mut s = ClassStore { data: Vec::new(), stride, classes: 0 };
        proof {
            assert(0 * stride == 0) by (nonlinear_arith);
        }
        s.expand(classes, fill);
        assert(s@ =~= Seq::new((classes * stride) as nat, |i: int| fill));
        s
    }

    /// Appends `extra` runs, all of their entries `fill`. Every entry that was
    /// there stays where it is and as it is.
    pub fn expand(&mut self, extra: usize, fill: T)
        requires
            old(self).wf(),
            (old(self).count() + extra) * old(self).run() <= usize::MAX,
            old(self).count() + extra <= usize::MAX,
        ensures
            final(self).wf(),
            final(self).count() == old(self).count() + extra,
            final(self).run() == old(self).run(),
            final(self)@ == old(self)@ + Seq::new(
                (extra * old(self).run()) as nat,
                |i: int| fill,
            ),
    {
        proof {
            assert((self.classes + extra) * self.stride == self.classes * self.stride + extra
                * self.stride) by (nonlinear_arith);
            assert(extra * self.stride >= 0) by (nonlinear_arith);
            assert(self.classes * self.stride >= 0) by (nonlinear_arith);
        }
        let more: usize = extra * self.stride;
        let ghost had = self.data@;
        let mut k: usize = 0;
        while k < more
            invariant
                k <= more,
                self.stride == old(self).stride,
                self.classes == old(self).classes,
                self.data@ == had + Seq::new(k as nat, |i: int| fill),
            decreases more - k,
        {
            self.data.push(fill);
            k = k + 1;
            assert(self.data@ =~= had + Seq::new(k as nat, |i: int| fill));
        }
        assert(more == 0 ==> self.data@ =~= had + Seq::new(0, |i: int| fill));
        self.classes = self.classes + extra;
    }

    /// The runs fill the storage.
    pub proof fn lemma_len(&self)
        requires
            self.wf(),
        ensures
            self@.len() == self.count() * self.run(),
            self@.len() <= usize::MAX,
    {
        assert(self.data@.len() == self.data.len());
    }

    /// How many runs there are.
    pub fn classes(&self) -> (n: usize)
        ensures
            n == self.count(),
    {
        self.classes
    }

    /// How long a run is.
    pub fn stride(&self) -> (n: usize)
        ensures
            n == self.run(),
    {
        self.stride
    }

    /// Where the run of a class starts.
    pub fn offset(&self, c: usize) -> (i: usize)
        requires
            self.wf(),
            c < self.count(),
        ensures
            i == c * self.run(),
            i + self.run() <= self@.len(),
    {
        proof {
            assert(self.data@.len() == self.data.len());
            assert((c + 1) * self.stride <= self.classes * self.stride) by (nonlinear_arith)
                requires
                    c + 1 <= self.classes,
            ;
            assert((c + 1) * self.stride == c * self.stride + self.stride) by (nonlinear_arith);
        }
        c * self.stride
    }

    /// All entries.
    pub fn as_slice(&self) -> (r: &[T])
        ensures
            r@ == self@,
    {
        self.data.as_slice()
    }

    /// All entries, to be written.
    pub fn as_mut_slice(&mut self) -> (r: &mut [T])
        requires
            old(self).wf(),
        ensures
            r@ == old(self)@,
            final(self)@ == final(r)@,
            final(self).count() == old(self).count(),
            final(self).run() == old(self).run(),
            final(r)@.len() == r@.len() ==> final(self).wf(),
    {
        self.data.as_mut_slice()
    }
}

/// Runs of different classes do not overlap.
pub proof fn law_runs_are_disjoint(stride: int, a: int, b: int, i: int, j: int)
    requires
        0 <= a,
        0 <= b,
        0 <= i < stride,
        0 <= j < stride,
        a * stride + i == b * stride + j,
    ensures
        a == b,
        i == j,
{
    if a < b {
        assert((a + 1) * stride <= b * stride) by (nonlinear_arith)
            requires
                a + 1 <= b,
                0 < stride,
        ;
        assert((a + 1) * stride == a * stride + stride) by (nonlinear_arith);
    } else if b < a {
        assert((b + 1) * stride <= a * stride) by (nonlinear_arith)
            requires
                b + 1 <= a,
                0 < stride,
        ;
        assert((b + 1) * stride == b * stride + stride) by (nonlinear_arith);
    }
}

/// Expanding leaves every entry of every class where and as it was.
pub proof fn law_expansion_moves_nothing<T>(
    before: Seq<T>,
    after: Seq<T>,
    more: Seq<T>,
    stride: int,
    classes: int,
    c: int,
    i: int,
)
    requires
        before.len() == classes * stride,
        after == before + more,
        0 <= c < classes,
        0 <= i < stride,
    ensures
        after[c * stride + i] == before[c * stride + i],
{
    assert((c + 1) * stride <= classes * stride) by (nonlinear_arith)
        requires
            c + 1 <= classes,
            0 < stride,
    ;
    assert((c + 1) * stride == c * stride + stride) by (nonlinear_arith);
    assert(c * stride >= 0) by (nonlinear_arith)
        requires
            0 <= c,
            0 < stride,
    ;
}

} // verus!
