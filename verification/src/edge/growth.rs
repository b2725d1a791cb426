//! When a new class is opened.

use vstd::prelude::*;

verus! {

/// Which stretch of a visit a step falls in: the first hundred, up to five
/// hundred, up to two thousand, or later.
pub open spec fn stretch(step: int) -> int {
    if step <= 99 {
        0
    } else if step <= 499 {
        1
    } else if step <= 1999 {
        2
    } else {
        3
    }
}

/// Which stretch of a visit a step falls in.
pub fn visit_stretch(step: u64) -> (b: usize)
    ensures
        b == stretch(step as int),
        b < 4,
{
    match step {
        0..=99 => 0,
        100..=499 => 1,
        500..=1999 => 2,
        _ => 3,
    }
}

/// Matches that have to be seen before any can count as novel.
pub const WARMUP: u64 = 64;

/// The longest window of the running match statistics.
pub const WINDOW: u64 = 4096;

/// What an observation asks of the memory.
#[derive(Clone, Copy, Debug, PartialEq, Eq, Structural)]
pub struct Growing {
    /// A class slice is to be appended first.
    pub expand: bool,
    /// A prototype is to be placed, in the next free class.
    pub open: bool,
}

/// The classes in use, and what decides when another is opened.
#[derive(Clone, Debug)]
pub struct Growth {
    /// Classes that have a prototype.
    pub n_active: usize,
    /// Classes that have storage.
    pub classes: usize,
    /// The most classes that storage may be appended for; with none, storage
    /// stays as it is.
    pub expand_cap: usize,
    /// Consecutive novel observations that open a class.
    pub grow_hold: usize,
    /// Consecutive novel observations so far.
    pub novel_run: usize,
    /// Openings by the stretch of the visit they fell in.
    pub opened_in: [usize; 4],
    /// Observations so far.
    pub seen: u64,
    /// Remembered contexts looked at when a class was opened.
    pub checked: u64,
    /// Those among them that changed class.
    pub steals: u64,
}

impl Growth {
    /// No more classes are in use than have storage.
    pub open spec fn wf(&self) -> bool {
        1 <= self.n_active <= self.classes
    }

    /// Openings so far.
    pub open spec fn openings(&self) -> int {
        self.opened_in@[0] + self.opened_in@[1] + self.opened_in@[2] + self.opened_in@[3]
    }

    /// Starts with `init` classes in use, but at least one and no more than
    /// have storage.
    pub fn new(init: usize, classes: usize, expand_cap: usize, grow_hold: usize) -> (g: Self)
        requires
            classes >= 1,
        ensures
            g.wf(),
            g.n_active == active_first(init as int, classes as int),
            g.classes == classes,
            g.expand_cap == expand_cap,
            g.grow_hold == grow_hold,
            g.novel_run == 0,
            g.openings() == 0,
            g.seen == 0,
            g.checked == 0,
            g.steals == 0,
    {
        let n_active: usize = if init < 1 {
            1
        } else if init > classes {
            classes
        } else {
            init
        };
        Growth {
            n_active,
            classes,
            expand_cap,
            grow_hold,
            novel_run: 0,
            opened_in: [0, 0, 0, 0],
            seen: 0,
            checked: 0,
            steals: 0,
        }
    }

    /// Counts an observation and gives the length of the window that the
    /// running match statistics average over.
    pub fn tick(&mut self) -> (window: u64)
        requires
            old(self).wf(),
            old(self).seen < u64::MAX,
        ensures
            *final(self) == (Growth { seen: (old(self).seen + 1) as u64, ..*old(self) }),
            window == window_for(final(self).seen as int),
    {
        self.seen = self.seen + 1;
        if self.seen < WINDOW {
            self.seen
        } else {
            WINDOW
        }
    }

    /// Whether a class could be opened at all: the statistics have settled, and
    /// there is storage or leave to append some.
    pub open spec fn may_open(&self) -> bool {
        self.seen >= WARMUP && (self.n_active < self.classes || self.expand_cap > self.classes)
    }

    /// Whether this observation opens a class.
    pub open spec fn opens(&self, novel: bool) -> bool {
        self.may_open() && novel && self.novel_run + 1 >= self.grow_hold
    }

    /// What an observation asks for, and what it leaves.
    pub open spec fn considered(
        self,
        novel: bool,
        visit_step: u64,
        now: Growth,
        m: Growing,
    ) -> bool {
        &&& m.open == self.opens(novel)
        &&& m.expand == (self.opens(novel) && self.n_active >= self.classes)
        &&& now.classes == self.classes + if m.expand {
            1int
        } else {
            0
        }
        &&& now.n_active == self.n_active + if m.open {
            1int
        } else {
            0
        }
        &&& now.novel_run == if !self.may_open() {
            self.novel_run as int
        } else if !novel || m.open {
            0
        } else {
            self.novel_run + 1
        }
        &&& now.opened_in@ == if m.open {
            self.opened_in@.update(
                stretch(visit_step as int),
                (self.opened_in@[stretch(visit_step as int)] + 1) as usize,
            )
        } else {
            self.opened_in@
        }
        &&& now.expand_cap == self.expand_cap
        &&& now.grow_hold == self.grow_hold
        &&& now.seen == self.seen
        &&& now.checked == self.checked
        &&& now.steals == self.steals
    }

    /// Decides what an observation asks for. A class is opened once enough
    /// observations in a row were novel, and the run starts over. Storage is
    /// appended only for a class that is opened while all of it is in use.
    pub fn consider(&mut self, novel: bool, visit_step: u64) -> (m: Growing)
        requires
            old(self).wf(),
            old(self).novel_run < usize::MAX,
            old(self).openings() < usize::MAX,
        ensures
            final(self).wf(),
            old(self).considered(novel, visit_step, *final(self), m),
    {
        let mut m = Growing { expand: false, open: false };
        if self.seen < WARMUP {
            return m;
        }
        if self.n_active >= self.classes && self.expand_cap <= self.classes {
            return m;
        }
        if !novel {
            self.novel_run = 0;
            return m;
        }
        self.novel_run = self.novel_run + 1;
        if self.novel_run < self.grow_hold {
            return m;
        }
        self.novel_run = 0;
        let b: usize = visit_stretch(visit_step);
        let mut counts = self.opened_in;
        let had: usize = counts[b];
        counts[b] = had + 1;
        self.opened_in = counts;
        if self.n_active >= self.classes {
            // Out of slots. Appending one only now is what makes the capacity
            // on-demand rather than a budget fixed up front.
            self.classes = self.classes + 1;
            m.expand = true;
        }
        self.n_active = self.n_active + 1;
        m.open = true;
        m
    }

    /// Records which class each remembered context was assigned before and
    /// after a class was opened.
    pub fn note_moves(&mut self, before: &[usize], after: &[usize])
        requires
            old(self).wf(),
            before@.len() == after@.len(),
            old(self).steals <= old(self).checked,
            old(self).checked + before@.len() <= u64::MAX,
        ensures
            final(self).checked == old(self).checked + before@.len(),
            final(self).steals == old(self).steals + moved(before@, after@, before@.len() as int),
            final(self).steals <= final(self).checked,
            *final(self) == (Growth {
                checked: final(self).checked,
                steals: final(self).steals,
                ..*old(self)
            }),
    {
        let n: usize = before.len();
        let mut k: usize = 0;
        let mut steals: u64 = self.steals;
        while k < n
            invariant
                k <= n,
                n == before@.len(),
                n == after@.len(),
                self.steals <= self.checked,
                self.checked + n <= u64::MAX,
                steals == self.steals + moved(before@, after@, k as int),
                steals <= self.steals + k,
            decreases n - k,
        {
            if before[k] != after[k] {
                steals = steals + 1;
            }
            k = k + 1;
        }
        self.steals = steals;
        self.checked = self.checked + n as u64;
    }
}

/// How many classes are active at first.
pub open spec fn active_first(init: int, classes: int) -> int {
    if init < 1 {
        1
    } else if init > classes {
        classes
    } else {
        init
    }
}

/// How many switches a token of class `c` counts as, after one of class `last`.
pub open spec fn switches_more(last: Option<usize>, c: usize) -> int {
    if last is Some && last != Some(c) {
        1
    } else {
        0
    }
}

/// In how many of the first `n` places two assignments differ.
pub open spec fn moved(before: Seq<usize>, after: Seq<usize>, n: int) -> int
    decreases n,
{
    if n <= 0 {
        0
    } else {
        moved(before, after, n - 1) + if before[n - 1] != after[n - 1] {
            1int
        } else {
            0
        }
    }
}

impl Growth {
    /// Whether two agree in everything that decides: they may differ in what was
    /// counted of openings and of the contexts they moved.
    pub open spec fn decides_like(&self, other: &Growth) -> bool {
        &&& self.n_active == other.n_active
        &&& self.classes == other.classes
        &&& self.expand_cap == other.expand_cap
        &&& self.grow_hold == other.grow_hold
        &&& self.novel_run == other.novel_run
        &&& self.seen == other.seen
    }
}

/// Telling a memory which domain is being trained is for measurement only. The
/// domain reaches the growth of classes through nothing but the step of the
/// visit and the contexts that are looked at after an opening; whatever those
/// were, two memories that decide alike take the same decisions on the same
/// observation, and still decide alike after it.
pub proof fn law_domains_are_only_measured(
    a: Growth,
    b: Growth,
    novel: bool,
    a_step: u64,
    b_step: u64,
    a_asks: Growing,
    b_asks: Growing,
    a_now: Growth,
    b_now: Growth,
)
    requires
        a.decides_like(&b),
        a.considered(novel, a_step, a_now, a_asks),
        b.considered(novel, b_step, b_now, b_asks),
    ensures
        a_asks == b_asks,
        a_now.decides_like(&b_now),
        forall|checked: u64, steals: u64|
            (Growth { checked, steals, ..a_now }).decides_like(&b_now),
{
}

impl Growth {
    /// What one observation does: it is counted, it is considered, and after it
    /// contexts may have been looked at.
    pub open spec fn observed(
        self,
        novel: bool,
        visit_step: u64,
        now: Growth,
        m: Growing,
    ) -> bool {
        let counted = Growth { seen: (self.seen + 1) as u64, ..self };
        counted.considered(
            novel,
            visit_step,
            Growth { checked: self.checked, steals: self.steals, ..now },
            m,
        )
    }
}

/// Two memories that start alike and observe the same, each told of other domains
/// in between, ask for the same at every step and stay alike: nothing but what
/// was measured tells them apart.
pub proof fn law_domains_never_decide(
    novel: Seq<bool>,
    a_steps: Seq<u64>,
    a: Seq<Growth>,
    a_asks: Seq<Growing>,
    b_steps: Seq<u64>,
    b: Seq<Growth>,
    b_asks: Seq<Growing>,
    n: int,
)
    requires
        0 <= n <= novel.len(),
        a.len() == novel.len() + 1,
        b.len() == novel.len() + 1,
        a[0].decides_like(&b[0]),
        forall|i: int|
            0 <= i < novel.len() ==> a[i].observed(
                #[trigger] novel[i],
                a_steps[i],
                a[i + 1],
                a_asks[i],
            ),
        forall|i: int|
            0 <= i < novel.len() ==> b[i].observed(
                #[trigger] novel[i],
                b_steps[i],
                b[i + 1],
                b_asks[i],
            ),
    ensures
        a[n].decides_like(&b[n]),
        n < novel.len() ==> a_asks[n] == b_asks[n],
    decreases n,
{
    if n > 0 {
        law_domains_never_decide(novel, a_steps, a, a_asks, b_steps, b, b_asks, n - 1);
        assert(a[n - 1].observed(novel[n - 1], a_steps[n - 1], a[n], a_asks[n - 1]));
        assert(b[n - 1].observed(novel[n - 1], b_steps[n - 1], b[n], b_asks[n - 1]));
    }
    if n < novel.len() {
        assert(a[n].observed(novel[n], a_steps[n], a[n + 1], a_asks[n]));
        assert(b[n].observed(novel[n], b_steps[n], b[n + 1], b_asks[n]));
    }
}

/// Storage is appended one class at a time, only where a novel observation opens
/// a class, and never past the ceiling: a memory that starts within it stays
/// within it.
pub proof fn law_expansion_is_capped(
    before: Growth,
    novel: bool,
    step: u64,
    after: Growth,
    m: Growing,
)
    requires
        before.wf(),
        before.considered(novel, step, after, m),
    ensures
        m.expand == (after.classes > before.classes),
        before.classes <= after.classes <= before.classes + 1,
        m.expand ==> after.classes <= before.expand_cap,
        m.expand ==> m.open && novel && before.n_active == before.classes,
        !novel ==> after.classes == before.classes && after.n_active == before.n_active,
{
}

/// Whether the class changed from one token to the next, counted.
#[derive(Clone, Debug)]
pub struct ClassTrack {
    /// Tokens absorbed.
    pub steps: u64,
    /// Those whose class differs from that of the token before.
    pub switches: u64,
    /// The class of the last token.
    pub last: Option<usize>,
}

impl ClassTrack {
    /// A switch takes a token before it.
    pub open spec fn wf(&self) -> bool {
        &&& self.last is None <==> self.steps == 0
        &&& self.steps == 0 ==> self.switches == 0
        &&& self.steps > 0 ==> self.switches < self.steps
    }

    /// Nothing absorbed yet.
    pub fn new() -> (t: Self)
        ensures
            t.wf(),
            t.steps == 0,
            t.switches == 0,
            t.last is None,
    {
        ClassTrack { steps: 0, switches: 0, last: None }
    }

    /// Records the class of one more token.
    pub fn note(&mut self, c: usize)
        requires
            old(self).wf(),
            old(self).steps < u64::MAX,
        ensures
            final(self).wf(),
            final(self).steps == old(self).steps + 1,
            final(self).last == Some(c),
            final(self).switches == old(self).switches + switches_more(old(self).last, c),
    {
        match self.last {
            Some(l) => {
                if l != c {
                    self.switches = self.switches + 1;
                }
            },
            None => {},
        }
        self.steps = self.steps + 1;
        self.last = Some(c);
    }
}

/// The class a fact is hashed to, whatever the stream has been: it depends on
/// the fact's own tokens alone.
pub open spec fn hashed(entity: usize, relation: usize, classes: usize) -> usize
    recommends
        classes > 0,
{
    (entity.wrapping_mul(31).wrapping_add(relation.wrapping_mul(131))) % classes
}

/// The class of a fact: hashed from its tokens, or the class the stream is in.
pub fn class_for(
    hash: bool,
    entity: usize,
    relation: usize,
    classes: usize,
    class_now: usize,
) -> (c: usize)
    requires
        classes > 0,
        class_now < classes,
    ensures
        c == class_of(hash, entity, relation, classes, class_now),
        c < classes,
{
    if hash {
        (entity.wrapping_mul(31).wrapping_add(relation.wrapping_mul(131))) % classes
    } else {
        class_now
    }
}

/// The stretches of a visit: the first hundred steps, four hundred more, fifteen
/// hundred more, and all the rest.
pub proof fn law_stretches_follow_one_another(step: int)
    requires
        0 <= step,
    ensures
        stretch(0) == 0,
        stretch(step) <= stretch(step + 1) <= stretch(step) + 1,
        stretch(step) != stretch(step + 1) <==> step + 1 == 100 || step + 1 == 100 + 400 || step + 1
            == 100 + 400 + 1500,
        0 <= stretch(step) < 4,
{
}

/// A class is opened by the last of so many novel observations in a row, and by no
/// earlier one: each that does not open adds to the run, and anything familiar
/// starts it over. Nothing opens before sixty-four matches were seen, nor where
/// there is neither storage nor leave to append some.
pub proof fn law_a_class_takes_a_run_of_novelty(
    before: Growth,
    novel: bool,
    step: u64,
    after: Growth,
    m: Growing,
)
    requires
        before.wf(),
        before.considered(novel, step, after, m),
    ensures
        m.open ==> novel && before.seen >= 64 && before.novel_run + 1 >= before.grow_hold,
        m.open ==> after.novel_run == 0 && after.n_active == before.n_active + 1,
        m.open ==> before.n_active < before.classes || before.classes < before.expand_cap,
        !m.open ==> after.n_active == before.n_active && after.classes == before.classes,
        novel && !m.open && before.seen >= 64 && (before.n_active < before.classes
            || before.classes < before.expand_cap) ==> after.novel_run == before.novel_run + 1
            && after.novel_run < before.grow_hold,
        !novel && before.seen >= 64 && (before.n_active < before.classes || before.classes
            < before.expand_cap) ==> after.novel_run == 0,
        after.n_active <= after.classes,
        m.open ==> after.opened_in@[stretch(step as int)] as int == (before.opened_in@[stretch(
            step as int,
        )] + 1) as usize,
        forall|b: int|
            0 <= b < 4 && b != stretch(step as int) ==> #[trigger] after.opened_in@[b]
                == before.opened_in@[b],
{
}

/// The running statistics average over everything seen, up to the last four
/// thousand and ninety-six matches.
pub proof fn law_windows_are_bounded(seen: int)
    requires
        0 <= seen,
    ensures
        window_for(seen) <= seen,
        window_for(seen) <= 4096,
        window_for(seen) == seen || window_for(seen) == 4096,
{
}

/// How many matches the running statistics average over.
pub open spec fn window_for(seen: int) -> int {
    if seen < WINDOW {
        seen
    } else {
        WINDOW as int
    }
}

/// How many remembered contexts changed class: those whose class is another one
/// than before.
pub proof fn law_moves_are_changes(before: Seq<usize>, after: Seq<usize>)
    requires
        before.len() == after.len(),
    ensures
        moved(before, after, before.len() as int) == Seq::new(
            before.len(),
            |k: int| before[k] != after[k],
        ).filter(|b: bool| b).len(),
        moved(before, before, before.len() as int) == 0,
{
    lemma_moved(before, after, before.len() as int);
    lemma_unmoved(before, before.len() as int);
    let flags = Seq::new(before.len(), |k: int| before[k] != after[k]);
    assert(flags.take(before.len() as int) =~= flags);
}

proof fn lemma_moved(before: Seq<usize>, after: Seq<usize>, n: int)
    requires
        0 <= n <= before.len(),
        before.len() == after.len(),
    ensures
        moved(before, after, n) == Seq::new(before.len(), |k: int| before[k] != after[k]).take(
            n,
        ).filter(|b: bool| b).len(),
    decreases n,
{
    reveal(Seq::filter);
    let flags = Seq::new(before.len(), |k: int| before[k] != after[k]);
    if n > 0 {
        lemma_moved(before, after, n - 1);
        assert(flags.take(n).drop_last() =~= flags.take(n - 1));
    }
}

proof fn lemma_unmoved(before: Seq<usize>, n: int)
    requires
        0 <= n <= before.len(),
    ensures
        moved(before, before, n) == 0,
    decreases n,
{
    if n > 0 {
        lemma_unmoved(before, n - 1);
    }
}

/// Hashed classes are spread over all classes: the next entity's is thirty-one
/// classes on and the next relation's a hundred and thirty-one, around the last,
/// and the fact of the first of both is in the first.
pub proof fn law_hashes_are_spread(entity: usize, relation: usize, classes: usize)
    requires
        classes > 0,
        31 * (entity + 1) + 131 * (relation + 1) <= usize::MAX,
    ensures
        hashed(0, 0, classes) == 0,
        hashed(entity, relation, classes) < classes,
        (hashed((entity + 1) as usize, relation, classes) - hashed(entity, relation, classes) - 31)
            % (classes as int) == 0,
        (hashed(entity, (relation + 1) as usize, classes) - hashed(entity, relation, classes) - 131)
            % (classes as int) == 0,
{
    let n = classes as int;
    let x = 31 * entity + 131 * relation;
    vstd::arithmetic::div_mod::lemma_mod_pos_bound(x, n);
    lemma_on(x, 31, n);
    lemma_on(x, 131, n);
    vstd::arithmetic::div_mod::lemma_small_mod(0, classes as nat);
    lemma_hashed(0, 0, classes);
    lemma_hashed(entity, relation, classes);
    lemma_hashed((entity + 1) as usize, relation, classes);
    lemma_hashed(entity, (relation + 1) as usize, classes);
    assert(31 * (entity + 1) + 131 * relation == x + 31);
    assert(31 * entity + 131 * (relation + 1) == x + 131);
}

/// Where nothing is too large to count, a hash is a plain sum of products.
proof fn lemma_hashed(entity: usize, relation: usize, classes: usize)
    requires
        classes > 0,
        31 * entity + 131 * relation <= usize::MAX,
    ensures
        hashed(entity, relation, classes) == (31 * entity + 131 * relation) % (classes as int),
{
    let all = usize::MAX as int + 1;
    assert(entity * 31 == 31 * entity && relation * 131 == 131 * relation);
    vstd::arithmetic::div_mod::lemma_small_mod((31 * entity) as nat, all as nat);
    vstd::arithmetic::div_mod::lemma_small_mod((131 * relation) as nat, all as nat);
    assert(entity.wrapping_mul(31) == 31 * entity);
    assert(relation.wrapping_mul(131) == 131 * relation);
    assert(entity.wrapping_mul(31).wrapping_add(relation.wrapping_mul(131)) == 31 * entity + 131
        * relation);
}

proof fn lemma_on(x: int, c: int, n: int)
    requires
        n >= 1,
    ensures
        ((x + c) % n - x % n - c) % n == 0,
{
    vstd::arithmetic::div_mod::lemma_fundamental_div_mod(x, n);
    vstd::arithmetic::div_mod::lemma_fundamental_div_mod(x + c, n);
    let k = x / n - (x + c) / n;
    assert((x + c) % n - x % n - c == k * n) by (nonlinear_arith)
        requires
            x == n * (x / n) + x % n,
            x + c == n * ((x + c) / n) + (x + c) % n,
            k == x / n - (x + c) / n,
    ;
    vstd::arithmetic::div_mod::lemma_mod_multiples_basic(k, n);
}

/// A hashed class is the same whatever class the stream is in; otherwise a fact is
/// of the class the stream is in.
pub proof fn law_hashing_ignores_the_stream(
    entity: usize,
    relation: usize,
    classes: usize,
    a: usize,
    b: usize,
)
    requires
        classes > 0,
    ensures
        class_of(true, entity, relation, classes, a) == class_of(
            true,
            entity,
            relation,
            classes,
            b,
        ),
        class_of(false, entity, relation, classes, a) == a,
{
}

/// The class of a fact: hashed from its tokens, or the class the stream is in.
pub open spec fn class_of(
    hash: bool,
    entity: usize,
    relation: usize,
    classes: usize,
    class_now: usize,
) -> usize {
    if hash {
        hashed(entity, relation, classes)
    } else {
        class_now
    }
}

/// A memory starts with the classes asked for, as far as there are any, and with
/// one at the least.
pub proof fn law_the_first_classes_are_as_asked(init: int, classes: int)
    requires
        1 <= classes,
    ensures
        1 <= active_first(init, classes) <= classes,
        1 <= init <= classes ==> active_first(init, classes) == init,
        init > classes ==> active_first(init, classes) == classes,
        init < 1 ==> active_first(init, classes) == 1,
{
}

/// A token switches where the one before it had another class; the first token
/// never does.
pub proof fn law_switches_are_changes(a: usize, b: usize)
    ensures
        switches_more(None, b) == 0,
        switches_more(Some(a), a) == 0,
        a != b ==> switches_more(Some(a), b) == 1,
{
}

} // verus!
