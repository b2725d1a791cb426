//! Where in a stream the needles are taught, and where they are asked for.

use crate::run::needles::{is_permutation, places, Needles};
use std::collections::HashMap;
use vstd::prelude::*;

verus! {

/// What the haystack is built from.
pub struct Straw {
    /// The symbols of the needles.
    pub plan: Needles,
    /// The id of the first reserved symbol.
    pub base: u32,
    /// The length of the stream before the questions.
    pub body: usize,
    /// How often each needle is taught.
    pub repeats: usize,
    /// Which needle is taught in each place.
    pub layout: Vec<usize>,
    /// Which needle is asked for in each place.
    pub order: Vec<usize>,
}

impl Straw {
    /// How many needles there are.
    pub open spec fn n(&self) -> int {
        self.plan.value@.len() as int
    }

    /// Both orders are permutations of the needles, and every position and
    /// symbol can be counted.
    pub open spec fn wf(&self) -> bool {
        &&& self.plan.wf()
        &&& self.n() > 0
        &&& self.repeats >= 1
        &&& self.layout@.len() == self.n()
        &&& self.order@.len() == self.n()
        &&& is_permutation(places(self.layout@))
        &&& is_permutation(places(self.order@))
        &&& self.n() * self.body <= usize::MAX
        &&& self.n() + 2 <= usize::MAX
        &&& self.body + self.repeats * self.plan.width() <= usize::MAX
        &&& self.body + self.n() * self.plan.width() <= usize::MAX
        &&& forall|i: int|
            0 <= i < self.n() ==> self.base + (#[trigger] self.plan.value@[i]) <= u32::MAX
        &&& forall|i: int, o: int|
            0 <= i < self.n() && 0 <= o < self.plan.prompt@[i]@.len() ==> self.base
                + #[trigger] self.plan.prompt@[i]@[o] <= u32::MAX
    }

    /// Where the needle in a teaching place is taught first. The places are
    /// spread evenly over the body.
    pub open spec fn teach_at(&self, slot: int) -> int {
        ((slot + 1) * self.body) / (self.n() + 2)
    }

    /// Where the question in a place starts. The questions follow one another
    /// after the body.
    pub open spec fn ask_at(&self, slot: int) -> int {
        self.body + slot * self.plan.width()
    }

    /// The token at offset `o` of needle `i`, with the value of needle `v`.
    pub open spec fn symbol(&self, i: int, v: int, o: int) -> int {
        if o < self.plan.width() - 1 {
            self.base + self.plan.prompt@[i]@[o]
        } else {
            self.base + self.plan.value@[v]
        }
    }

    /// Which place a needle is taught in.
    pub open spec fn place_of(&self, i: int) -> int {
        places(self.layout@).index_of(i)
    }

    /// Whether a needle is asked for with another needle's value. Matched and
    /// foil alternate along the places, so both span the same distances.
    pub open spec fn is_foil(&self, i: int) -> bool {
        self.place_of(i) % 2 == 1
    }
}

/// The numbers below `n` for which a flag is set, in order.
pub open spec fn flagged(flags: Seq<bool>, n: int) -> Seq<int>
    decreases n,
{
    if n <= 0 {
        seq![]
    } else if flags[n - 1] {
        flagged(flags, n - 1).push(n - 1)
    } else {
        flagged(flags, n - 1)
    }
}

/// Whose value a needle is asked for: its own, or, for a foil, that of the next
/// foil, the last one's being that of the first. A foil that is alone is asked
/// for the value of the first other needle.
pub open spec fn answer_of(foil: Seq<bool>, i: int) -> int {
    let odd = flagged(foil, foil.len() as int);
    if !foil[i] || foil.len() < 2 {
        i
    } else if odd.len() < 2 {
        if i == 0 {
            1
        } else {
            0
        }
    } else {
        odd[(odd.index_of(i) + 1) % odd.len() as int]
    }
}

proof fn lemma_flagged(flags: Seq<bool>, n: int)
    requires
        0 <= n <= flags.len(),
    ensures
        flagged(flags, n).len() <= n,
        forall|k: int|
            0 <= k < flagged(flags, n).len() ==> 0 <= #[trigger] flagged(flags, n)[k] < n
                && flags[flagged(flags, n)[k]],
        forall|j: int, k: int|
            0 <= j < k < flagged(flags, n).len() ==> flagged(flags, n)[j] < flagged(flags, n)[k],
        forall|i: int| 0 <= i < n && #[trigger] flags[i] ==> flagged(flags, n).contains(i),
    decreases n,
{
    if n > 0 {
        lemma_flagged(flags, n - 1);
        let short = flagged(flags, n - 1);
        let now = flagged(flags, n);
        assert forall|i: int| 0 <= i < n && #[trigger] flags[i] implies now.contains(i) by {
            if i == n - 1 {
                assert(now[now.len() - 1] == i);
            } else {
                assert(short.contains(i));
                let k = choose|k: int| 0 <= k < short.len() && short[k] == i;
                assert(now[k] == i);
            }
        }
    }
}

proof fn lemma_flagged_distinct(flags: Seq<bool>)
    ensures
        flagged(flags, flags.len() as int).no_duplicates(),
{
    lemma_flagged(flags, flags.len() as int);
}

/// A matched needle is asked for its own value and a foil for another needle's.
/// Where there are two foils or more, every value is asked for exactly once, and
/// a foil is asked for a foil's.
pub proof fn law_answers_are_a_permutation(foil: Seq<bool>, i: int, j: int)
    requires
        0 <= i < foil.len(),
        0 <= j < foil.len(),
    ensures
        0 <= answer_of(foil, i) < foil.len(),
        !foil[i] ==> answer_of(foil, i) == i,
        foil[i] && foil.len() >= 2 ==> answer_of(foil, i) != i,
        flagged(foil, foil.len() as int).len() >= 2 ==> foil[answer_of(foil, i)] == foil[i],
        flagged(foil, foil.len() as int).len() >= 2 && i != j ==> answer_of(foil, i) != answer_of(
            foil,
            j,
        ),
{
    let n = foil.len() as int;
    let odd = flagged(foil, n);
    lemma_flagged(foil, n);
    lemma_flagged_distinct(foil);
    let m = odd.len() as int;
    if foil[i] {
        assert(odd.contains(i));
        let a = odd.index_of(i);
        assert(odd[a] == i);
        vstd::arithmetic::div_mod::lemma_mod_pos_bound(a + 1, m);
        lemma_next_place(a, m);
        if foil[j] && i != j {
            assert(odd.contains(j));
            let b = odd.index_of(j);
            assert(odd[b] == j);
            lemma_next_place(b, m);
            assert(a != b);
        }
    }
    if foil[j] {
        assert(odd.contains(j));
        let b = odd.index_of(j);
        assert(odd[b] == j);
        vstd::arithmetic::div_mod::lemma_mod_pos_bound(b + 1, m);
    }
}

/// Half of the needles, by the places they are taught in, are asked for another
/// needle's value: those in every second place, and never for their own.
pub proof fn law_foils_are_asked_for_another(s: Straw, slot: int)
    requires
        s.wf(),
        0 <= slot < s.n(),
    ensures
        ({
            let i = s.layout@[slot] as int;
            &&& s.foils()[i] == (slot % 2 == 1)
            &&& slot % 2 == 1 <==> answer_of(s.foils(), i) != i
        }),
{
    let i = s.layout@[slot] as int;
    assert(0 <= places(s.layout@)[slot] < s.n());
    lemma_onto(places(s.layout@), i);
    assert(places(s.layout@)[s.place_of(i)] == i);
    assert(places(s.layout@)[slot] == i);
    assert(s.place_of(i) == slot);
    law_answers_are_a_permutation(s.foils(), i, i);
}

proof fn lemma_next_place(a: int, m: int)
    requires
        0 <= a < m,
    ensures
        (a + 1) % m == if a + 1 == m {
            0
        } else {
            a + 1
        },
{
    if a + 1 == m {
        vstd::arithmetic::div_mod::lemma_mod_self_0(m);
    } else {
        vstd::arithmetic::div_mod::lemma_small_mod((a + 1) as nat, m as nat);
    }
}

/// Some positions and the tokens they are to hold, the later entry winning.
pub open spec fn written(m: Map<usize, u32>, w: Seq<(int, int)>) -> Map<usize, u32>
    decreases w.len(),
{
    if w.len() == 0 {
        m
    } else {
        written(m, w.drop_last()).insert(w.last().0 as usize, w.last().1 as u32)
    }
}

impl Straw {
    /// What teaching needle `i` the value of needle `v` at `at` puts where, for
    /// the first `k` tokens.
    pub open spec fn lesson(&self, at: int, i: int, v: int, k: int) -> Seq<(int, int)>
        decreases k,
    {
        if k <= 0 {
            seq![]
        } else {
            self.lesson(at, i, v, k - 1).push((at + k - 1, self.symbol(i, v, k - 1)))
        }
    }

    /// What the first `r` lessons in a place put where.
    pub open spec fn drill(&self, slot: int, r: int) -> Seq<(int, int)>
        decreases r,
    {
        if r <= 0 {
            seq![]
        } else {
            let i = self.layout@[slot] as int;
            self.drill(slot, r - 1) + self.lesson(
                self.teach_at(slot) + (r - 1) * self.plan.width(),
                i,
                i,
                self.plan.width(),
            )
        }
    }

    /// What the first `k` teaching places put where.
    pub open spec fn teaching(&self, k: int) -> Seq<(int, int)>
        decreases k,
    {
        if k <= 0 {
            seq![]
        } else {
            self.teaching(k - 1) + self.drill(k - 1, self.repeats as int)
        }
    }

    /// Whether each needle is a foil.
    pub open spec fn foils(&self) -> Seq<bool> {
        Seq::new(self.n() as nat, |i: int| self.is_foil(i))
    }

    /// What the first `k` questions put where.
    pub open spec fn asking(&self, k: int) -> Seq<(int, int)>
        decreases k,
    {
        if k <= 0 {
            seq![]
        } else {
            let i = self.order@[k - 1] as int;
            self.asking(k - 1) + self.lesson(
                self.ask_at(k - 1),
                i,
                answer_of(self.foils(), i),
                self.plan.width(),
            )
        }
    }

    /// The tokens that are forced on the stream: all that is taught, and then
    /// all that is asked.
    pub open spec fn forced(&self) -> Map<usize, u32> {
        written(Map::empty(), self.teaching(self.n()) + self.asking(self.n()))
    }
}

proof fn lemma_written_add(m: Map<usize, u32>, a: Seq<(int, int)>, b: Seq<(int, int)>)
    ensures
        written(m, a + b) == written(written(m, a), b),
    decreases b.len(),
{
    if b.len() == 0 {
        assert(a + b =~= a);
    } else {
        assert((a + b).drop_last() =~= a + b.drop_last());
        lemma_written_add(m, a, b.drop_last());
    }
}

impl Straw {
    /// Where the scored slot of the last lesson in each place lies, and which
    /// needle it belongs to.
    pub open spec fn last_lessons(&self, k: int) -> Map<usize, usize>
        decreases k,
    {
        if k <= 0 {
            Map::empty()
        } else {
            let at = self.teach_at(k - 1) + (self.repeats - 1) * self.plan.width()
                + self.plan.width() - 2;
            self.last_lessons(k - 1).insert(at as usize, self.layout@[k - 1])
        }
    }

    /// Where the scored slot of each question lies, and which needle is asked
    /// for.
    pub open spec fn questions(&self, k: int) -> Map<usize, usize>
        decreases k,
    {
        if k <= 0 {
            Map::empty()
        } else {
            let at = self.ask_at(k - 1) + self.plan.width() - 2;
            self.questions(k - 1).insert(at as usize, self.order@[k - 1])
        }
    }

    proof fn lemma_teach_at(&self, slot: int)
        requires
            self.wf(),
            0 <= slot < self.n(),
        ensures
            0 <= self.teach_at(slot) <= self.body,
            0 <= (slot + 1) * self.body <= usize::MAX,
    {
        let x = (slot + 1) * self.body;
        assert(0 <= x <= self.n() * self.body) by (nonlinear_arith)
            requires
                0 <= slot + 1 <= self.n(),
                0 <= self.body,
                x == (slot + 1) * self.body,
        ;
        assert(0 <= x / (self.n() + 2) <= self.body) by (nonlinear_arith)
            requires
                0 <= x <= self.n() * self.body,
                0 < self.n(),
                0 <= self.body,
        ;
    }

    proof fn lemma_ask_at(&self, slot: int)
        requires
            self.wf(),
            0 <= slot < self.n(),
        ensures
            self.body <= self.ask_at(slot),
            self.ask_at(slot) + self.plan.width() <= self.body + self.n() * self.plan.width(),
            self.ask_at(slot) + self.plan.width() <= usize::MAX,
            slot * self.plan.width() >= 0,
    {
        let w = self.plan.width();
        assert(0 <= slot * w && slot * w + w <= self.n() * w) by (nonlinear_arith)
            requires
                0 <= slot,
                slot + 1 <= self.n(),
                0 <= w,
        ;
    }

    /// Writes one lesson.
    fn teach(&self, forced: &mut HashMap<usize, u32>, at: usize, i: usize, v: usize)
        requires
            self.wf(),
            i < self.n(),
            v < self.n(),
            at + self.plan.width() <= usize::MAX,
        ensures
            final(forced)@ == written(
                old(forced)@,
                self.lesson(at as int, i as int, v as int, self.plan.width()),
            ),
    {
        broadcast use vstd::std_specs::hash::group_hash_axioms;

        let w: usize = self.plan.stride();
        let mut o: usize = 0;
        assert(self.plan.prompt@[i as int]@.len() == w - 1);
        while o + 1 < w
            invariant
                self.wf(),
                i < self.n(),
                v < self.n(),
                w == self.plan.width(),
                self.plan.prompt@[i as int]@.len() == w - 1,
                at + w <= usize::MAX,
                o < w,
                forced@ == written(
                    old(forced)@,
                    self.lesson(at as int, i as int, v as int, o as int),
                ),
            decreases w - o,
        {
            proof {
                let l = self.lesson(at as int, i as int, v as int, o + 1);
                assert(l.drop_last() =~= self.lesson(at as int, i as int, v as int, o as int));
            }
            forced.insert(at + o, self.base + self.plan.prompt[i][o]);
            o = o + 1;
        }
        proof {
            let l = self.lesson(at as int, i as int, v as int, w as int);
            assert(l.drop_last() =~= self.lesson(at as int, i as int, v as int, w - 1));
        }
        forced.insert(at + w - 1, self.base + self.plan.value[v]);
    }
}

/// What is taught where, and what is asked where.
pub struct Haystack {
    /// The tokens that are forced on the stream.
    pub forced: HashMap<usize, u32>,
    /// Scored slot of a question, and which needle is asked for.
    pub asked: HashMap<usize, usize>,
    /// Scored slot of a needle's last lesson, and which needle it is.
    pub last_teach: HashMap<usize, usize>,
    /// Where each needle is first taught.
    pub taught_at: Vec<usize>,
    /// Whether each needle is asked for with another's value.
    pub foil: Vec<bool>,
    /// Whose value each needle is asked for.
    pub answer: Vec<usize>,
}

impl Haystack {
    /// Lays out the teaching and the questions.
    pub fn build(s: &Straw) -> (h: Haystack)
        requires
            s.wf(),
        ensures
            h.forced@ == s.forced(),
            h.asked@ == s.questions(s.n()),
            h.last_teach@ == s.last_lessons(s.n()),
            h.taught_at@.len() == s.n(),
            forall|i: int|
                0 <= i < s.n() ==> #[trigger] h.taught_at@[i] == s.teach_at(s.place_of(i)),
            h.foil@ == s.foils(),
            h.answer@.len() == s.n(),
            forall|i: int|
                0 <= i < s.n() ==> #[trigger] h.answer@[i] == answer_of(s.foils(), i),
    {
        broadcast use vstd::std_specs::hash::group_hash_axioms;

        let n: usize = s.plan.len();
        let w: usize = s.plan.stride();
        let mut forced: HashMap<usize, u32> = HashMap::new();
        let mut last_teach: HashMap<usize, usize> = HashMap::new();
        let mut taught_at: Vec<usize> = Vec::new();
        taught_at.resize(n, 0);
        let mut foil: Vec<bool> = Vec::new();
        foil.resize(n, false);
        let mut slot: usize = 0;
        assert(forced@ =~= written(Map::empty(), s.teaching(0)));
        assert(last_teach@ =~= s.last_lessons(0));
        while slot < n
            invariant
                slot <= n,
                s.wf(),
                n == s.n(),
                w == s.plan.width(),
                w >= 2,
                forced@ == written(Map::empty(), s.teaching(slot as int)),
                last_teach@ == s.last_lessons(slot as int),
                taught_at@.len() == n,
                foil@.len() == n,
                forall|k: int|
                    0 <= k < slot ==> taught_at@[s.layout@[k] as int] == s.teach_at(k)
                        && foil@[#[trigger] s.layout@[k] as int] == (k % 2 == 1),
            decreases n - slot,
        {
            broadcast use vstd::std_specs::hash::group_hash_axioms;

            proof {
                s.lemma_teach_at(slot as int);
                assert(0 <= places(s.layout@)[slot as int] < n);
                assert(s.n() + 2 <= usize::MAX);
            }
            let i: usize = s.layout[slot];
            let at: usize = (slot + 1) * s.body / (n + 2);
            let mut r: usize = 0;
            let mut from: usize = at;
            let ghost before = forced@;
            proof {
                assert(before == written(before, s.drill(slot as int, 0)));
                assert(0 * w == 0) by (nonlinear_arith);
            }
            while r < s.repeats
                invariant
                    r <= s.repeats,
                    s.wf(),
                    slot < n,
                    n == s.n(),
                    w == s.plan.width(),
                    w >= 2,
                    i < n,
                    i == s.layout@[slot as int],
                    at == s.teach_at(slot as int),
                    at <= s.body,
                    from == at + r * w,
                    forced@ == written(before, s.drill(slot as int, r as int)),
                decreases s.repeats - r,
            {
                proof {
                    assert((r + 1) * w == r * w + w) by (nonlinear_arith);
                    assert((r + 1) * w <= s.repeats * w) by (nonlinear_arith)
                        requires
                            r + 1 <= s.repeats,
                    ;
                    lemma_written_add(
                        before,
                        s.drill(slot as int, r as int),
                        s.lesson(from as int, i as int, i as int, w as int),
                    );
                }
                s.teach(&mut forced, from, i, i);
                from = from + w;
                r = r + 1;
            }
            proof {
                lemma_written_add(
                    Map::empty(),
                    s.teaching(slot as int),
                    s.drill(slot as int, s.repeats as int),
                );
                assert((s.repeats - 1) * w == s.repeats * w - w) by (nonlinear_arith);
            }
            let ghost was = taught_at@;
            let ghost had = foil@;
            taught_at.set(i, at);
            last_teach.insert(from - 2, i);
            foil.set(i, slot % 2 == 1);
            proof {
                assert forall|k: int| 0 <= k < slot + 1 implies taught_at@[s.layout@[k] as int]
                    == s.teach_at(k) && foil@[#[trigger] s.layout@[k] as int] == (k % 2 == 1) by {
                    if k < slot {
                        assert(places(s.layout@)[k] != places(s.layout@)[slot as int]);
                        assert(0 <= places(s.layout@)[k] < n);
                        assert(was[s.layout@[k] as int] == s.teach_at(k));
                        assert(had[s.layout@[k] as int] == (k % 2 == 1));
                    }
                }
            }
            slot = slot + 1;
        }
        proof {
            assert forall|i: int|
                #![trigger taught_at@[i]]
                #![trigger foil@[i]]
                0 <= i < n implies taught_at@[i] == s.teach_at(s.place_of(i)) && foil@[i]
                == s.is_foil(i) by {
                lemma_onto(places(s.layout@), i);
                let k = s.place_of(i);
                assert(places(s.layout@)[k] == i);
                assert(s.layout@[k] == i);
            }
            assert(foil@ =~= s.foils());
        }
        let answer = answers(&foil);
        let mut asked: HashMap<usize, usize> = HashMap::new();
        let mut slot: usize = 0;
        let mut at: usize = s.body;
        let ghost taught = forced@;
        proof {
            assert(asked@ =~= s.questions(0));
            assert(0 * w == 0) by (nonlinear_arith);
        }
        while slot < n
            invariant
                slot <= n,
                s.wf(),
                n == s.n(),
                w == s.plan.width(),
                w >= 2,
                at == s.body + slot * w,
                foil@ == s.foils(),
                answer@.len() == n,
                forall|i: int| 0 <= i < n ==> #[trigger] answer@[i] == answer_of(foil@, i),
                forall|i: int| 0 <= i < n ==> 0 <= #[trigger] answer@[i] < n,
                forced@ == written(taught, s.asking(slot as int)),
                asked@ == s.questions(slot as int),
            decreases n - slot,
        {
            broadcast use vstd::std_specs::hash::group_hash_axioms;

            proof {
                s.lemma_ask_at(slot as int);
                assert(0 <= places(s.order@)[slot as int] < n);
                assert((slot + 1) * w == slot * w + w) by (nonlinear_arith);
            }
            let i: usize = s.order[slot];
            proof {
                lemma_written_add(
                    taught,
                    s.asking(slot as int),
                    s.lesson(at as int, i as int, answer@[i as int] as int, w as int),
                );
            }
            s.teach(&mut forced, at, i, answer[i]);
            asked.insert(at + w - 2, i);
            at = at + w;
            slot = slot + 1;
        }
        proof {
            lemma_written_add(Map::empty(), s.teaching(n as int), s.asking(n as int));
        }
        Haystack { forced, asked, last_teach, taught_at, foil, answer }
    }
}

/// A permutation reaches every number below its length.
pub proof fn lemma_onto(v: Seq<int>, i: int)
    requires
        is_permutation(v),
        0 <= i < v.len(),
    ensures
        v.contains(i),
{
    let n = v.len() as int;
    let all = Set::new(|k: int| 0 <= k < n);
    let img = v.to_set();
    v.unique_seq_to_set();
    vstd::set_lib::lemma_int_range(0, n);
    assert(all =~= vstd::set_lib::set_int_range(0, n));
    assert(img.subset_of(all)) by {
        assert forall|x: int| img.contains(x) implies all.contains(x) by {
            let k = choose|k: int| 0 <= k < v.len() && v[k] == x;
            assert(0 <= v[k] < n);
        }
    }
    vstd::set_lib::lemma_subset_equality(img, all);
    assert(img.contains(i));
}

/// Whose value each needle is asked for.
fn answers(foil: &Vec<bool>) -> (answer: Vec<usize>)
    ensures
        answer@.len() == foil@.len(),
        forall|i: int| 0 <= i < foil@.len() ==> #[trigger] answer@[i] == answer_of(foil@, i),
        forall|i: int| 0 <= i < foil@.len() ==> 0 <= #[trigger] answer@[i] < foil@.len(),
{
    let n: usize = foil.len();
    let mut odd: Vec<usize> = Vec::new();
    let mut answer: Vec<usize> = Vec::new();
    let mut i: usize = 0;
    assert(places(odd@) =~= flagged(foil@, 0));
    while i < n
        invariant
            i <= n,
            n == foil@.len(),
            places(odd@) == flagged(foil@, i as int),
            answer@.len() == i,
            forall|j: int| 0 <= j < i ==> answer@[j] == j,
        decreases n - i,
    {
        let ghost was = odd@;
        if foil[i] {
            odd.push(i);
            assert(places(odd@) =~= places(was).push(i as int));
        }
        answer.push(i);
        i = i + 1;
    }
    let ghost o = flagged(foil@, n as int);
    let m: usize = odd.len();
    proof {
        lemma_flagged(foil@, n as int);
        lemma_flagged_distinct(foil@);
        assert(o.len() == m);
    }
    if m < 2 {
        if m == 1 && n >= 2 {
            proof {
                assert(o[0] == odd@[0]);
                assert(0 <= o[0] < n);
            }
            let lone: usize = odd[0];
            answer.set(lone, if lone == 0 {
                1
            } else {
                0
            });
        }
        proof {
            assert forall|j: int| 0 <= j < n implies #[trigger] answer@[j] == answer_of(foil@, j)
                && 0 <= answer@[j] < n by {
                if foil@[j] {
                    assert(o.contains(j));
                    assert(o[0] == j);
                } else if m == 1 {
                    assert(foil@[o[0]]);
                }
            }
        }
        return answer;
    }
    let mut k: usize = 0;
    while k < m
        invariant
            k <= m,
            2 <= m,
            m == odd@.len(),
            n == foil@.len(),
            m <= n,
            o == flagged(foil@, n as int),
            o == places(odd@),
            o.no_duplicates(),
            forall|j: int| 0 <= j < o.len() ==> 0 <= #[trigger] o[j] < n && foil@[o[j]],
            answer@.len() == n,
            forall|j: int| 0 <= j < n && !foil@[j] ==> answer@[j] == j,
            forall|j: int|
                0 <= j < k ==> answer@[#[trigger] o[j]] == o[(j + 1) % m as int],
        decreases m - k,
    {
        proof {
            lemma_next_place(k as int, m as int);
            assert(o[k as int] == odd@[k as int]);
            assert(0 <= o[k as int] < n);
        }
        let next: usize = if k + 1 == m {
            0
        } else {
            k + 1
        };
        assert(o[next as int] == odd@[next as int]);
        let ghost was = answer@;
        answer.set(odd[k], odd[next]);
        proof {
            assert forall|j: int| 0 <= j < k + 1 implies answer@[#[trigger] o[j]] == o[(j + 1)
                % m as int] by {
                if j < k {
                    assert(o[j] != o[k as int]);
                    assert(was[o[j]] == o[(j + 1) % m as int]);
                }
            }
        }
        k = k + 1;
    }
    proof {
        assert forall|j: int| 0 <= j < n implies #[trigger] answer@[j] == answer_of(foil@, j) && 0
            <= answer@[j] < n by {
            law_answers_are_a_permutation(foil@, j, j);
            if foil@[j] {
                assert(o.contains(j));
                let a = o.index_of(j);
                assert(o[a] == j);
                assert(answer@[o[a]] == o[(a + 1) % m as int]);
            }
        }
    }
    answer
}

/// Whether all positions of some entries lie between two bounds.
spec fn between(w: Seq<(int, int)>, lo: int, hi: int) -> bool {
    forall|k: int| 0 <= k < w.len() ==> lo <= (#[trigger] w[k]).0 < hi
}

proof fn lemma_untouched(m: Map<usize, u32>, w: Seq<(int, int)>, lo: int, hi: int, q: usize)
    requires
        between(w, lo, hi),
        0 <= lo,
        hi <= usize::MAX + 1,
        q < lo || q >= hi,
    ensures
        written(m, w).contains_key(q) == m.contains_key(q),
        m.contains_key(q) ==> written(m, w)[q] == m[q],
    decreases w.len(),
{
    if w.len() > 0 {
        let short = w.drop_last();
        assert(between(short, lo, hi)) by {
            assert forall|k: int| 0 <= k < short.len() implies lo <= (#[trigger] short[k]).0 < hi by {
                assert(short[k] == w[k]);
            }
        }
        lemma_untouched(m, short, lo, hi, q);
        assert(lo <= w[w.len() - 1].0 < hi);
    }
}

proof fn lemma_between_add(a: Seq<(int, int)>, b: Seq<(int, int)>, lo: int, hi: int)
    requires
        between(a, lo, hi),
        between(b, lo, hi),
    ensures
        between(a + b, lo, hi),
{
    assert forall|k: int| 0 <= k < (a + b).len() implies lo <= (#[trigger] (a + b)[k]).0 < hi by {
        if k < a.len() {
            assert((a + b)[k] == a[k]);
        } else {
            assert((a + b)[k] == b[k - a.len()]);
        }
    }
}

impl Straw {
    proof fn lemma_lesson_span(&self, at: int, i: int, v: int, k: int)
        requires
            0 <= k,
        ensures
            between(self.lesson(at, i, v, k), at, at + k),
        decreases k,
    {
        if k > 0 {
            self.lemma_lesson_span(at, i, v, k - 1);
            let short = self.lesson(at, i, v, k - 1);
            let now = self.lesson(at, i, v, k);
            assert forall|j: int| 0 <= j < now.len() implies at <= (#[trigger] now[j]).0 < at + k by {
                if j < short.len() {
                    assert(now[j] == short[j]);
                }
            }
        }
    }

    proof fn lemma_symbol_fits(&self, i: int, v: int, o: int)
        requires
            self.wf(),
            0 <= i < self.n(),
            0 <= v < self.n(),
            0 <= o < self.plan.width(),
        ensures
            0 <= self.symbol(i, v, o) <= u32::MAX,
    {
        assert(self.plan.prompt@[i]@.len() == self.plan.width() - 1);
        assert(self.base + self.plan.value@[v] <= u32::MAX);
        if o < self.plan.width() - 1 {
            assert(self.base + self.plan.prompt@[i]@[o] <= u32::MAX);
        }
    }

    /// A lesson puts each symbol in its place.
    proof fn lemma_lesson_holds(
        &self,
        m: Map<usize, u32>,
        at: int,
        i: int,
        v: int,
        k: int,
        o: int,
    )
        requires
            self.wf(),
            0 <= at,
            at + k <= usize::MAX + 1,
            0 <= o < k <= self.plan.width(),
            0 <= i < self.n(),
            0 <= v < self.n(),
        ensures
            written(m, self.lesson(at, i, v, k)).contains_key((at + o) as usize),
            written(m, self.lesson(at, i, v, k))[(at + o) as usize] == self.symbol(i, v, o),
        decreases k,
    {
        let now = self.lesson(at, i, v, k);
        assert(now.drop_last() =~= self.lesson(at, i, v, k - 1));
        self.lemma_symbol_fits(i, v, k - 1);
        if o < k - 1 {
            self.lemma_lesson_holds(m, at, i, v, k - 1, o);
        }
    }

    proof fn lemma_asking_holds(&self, m: Map<usize, u32>, k: int, slot: int, o: int)
        requires
            self.wf(),
            0 <= slot < k <= self.n(),
            0 <= o < self.plan.width(),
        ensures
            written(m, self.asking(k)).contains_key((self.ask_at(slot) + o) as usize),
            written(m, self.asking(k))[(self.ask_at(slot) + o) as usize] == self.symbol(
                self.order@[slot] as int,
                answer_of(self.foils(), self.order@[slot] as int),
                o,
            ),
        decreases k,
    {
        let i = self.order@[k - 1] as int;
        assert(0 <= places(self.order@)[k - 1] < self.n());
        assert(self.foils().len() == self.n());
        law_answers_are_a_permutation(self.foils(), i, i);
        let v = answer_of(self.foils(), i);
        let w = self.plan.width();
        let last = self.lesson(self.ask_at(k - 1), i, v, w);
        lemma_written_add(m, self.asking(k - 1), last);
        let before = written(m, self.asking(k - 1));
        self.lemma_ask_at(k - 1);
        self.lemma_ask_at(slot);
        if slot == k - 1 {
            self.lemma_lesson_holds(before, self.ask_at(slot), i, v, w, o);
        } else {
            self.lemma_asking_holds(m, k - 1, slot, o);
            self.lemma_lesson_span(self.ask_at(k - 1), i, v, w);
            assert(slot * w + w <= (k - 1) * w) by (nonlinear_arith)
                requires
                    slot + 1 <= k - 1,
                    0 <= w,
            ;
            lemma_untouched(
                before,
                last,
                self.ask_at(k - 1),
                self.ask_at(k - 1) + w,
                (self.ask_at(slot) + o) as usize,
            );
        }
    }

    proof fn lemma_questions(&self, k: int, slot: int)
        requires
            self.wf(),
            0 <= slot < k <= self.n(),
        ensures
            self.questions(k).contains_key((self.ask_at(slot) + self.plan.width() - 2) as usize),
            self.questions(k)[(self.ask_at(slot) + self.plan.width() - 2) as usize]
                == self.order@[slot],
        decreases k,
    {
        self.lemma_ask_at(slot);
        self.lemma_ask_at(k - 1);
        if slot < k - 1 {
            self.lemma_questions(k - 1, slot);
            let w = self.plan.width();
            assert(slot * w + w <= (k - 1) * w) by (nonlinear_arith)
                requires
                    slot + 1 <= k - 1,
                    0 <= w,
            ;
        }
    }
}

/// Every question lines up: its scored slot holds the last symbol of the prompt
/// of the needle that is asked for, and the token after it the value that is
/// asked.
pub proof fn law_questions_line_up(s: Straw, slot: int)
    requires
        s.wf(),
        0 <= slot < s.n(),
    ensures
        ({
            let i = s.order@[slot] as int;
            let at = s.ask_at(slot) + s.plan.width() - 2;
            &&& s.questions(s.n()).contains_key(at as usize)
            &&& s.questions(s.n())[at as usize] == i
            &&& s.forced().contains_key(at as usize)
            &&& s.forced()[at as usize] == s.base + s.plan.prompt@[i]@.last()
            &&& s.forced().contains_key((at + 1) as usize)
            &&& s.forced()[(at + 1) as usize] == s.base + s.plan.value@[answer_of(s.foils(), i)]
        }),
{
    let i = s.order@[slot] as int;
    let w = s.plan.width();
    assert(0 <= places(s.order@)[slot] < s.n());
    assert(s.plan.prompt@[i]@.len() == w - 1);
    s.lemma_questions(s.n(), slot);
    lemma_written_add(Map::empty(), s.teaching(s.n()), s.asking(s.n()));
    let taught = written(Map::empty(), s.teaching(s.n()));
    s.lemma_asking_holds(taught, s.n(), slot, w - 2);
    s.lemma_asking_holds(taught, s.n(), slot, w - 1);
}

impl Straw {
    /// Where the lessons in a place end.
    pub open spec fn teach_end(&self, slot: int) -> int {
        self.teach_at(slot) + self.repeats * self.plan.width()
    }

    /// Whether the lessons have room: each place ends before the next begins,
    /// and the last before the questions.
    pub open spec fn roomy(&self) -> bool {
        &&& forall|s: int|
            0 <= s < self.n() - 1 ==> #[trigger] self.teach_end(s) <= self.teach_at(s + 1)
        &&& self.teach_end(self.n() - 1) <= self.body
    }

    proof fn lemma_room(&self, a: int, b: int)
        requires
            self.wf(),
            self.roomy(),
            0 <= a < b < self.n(),
        ensures
            self.teach_end(a) <= self.teach_at(b),
        decreases b - a,
    {
        assert(self.teach_end(a) <= self.teach_at(a + 1));
        if a + 1 < b {
            self.lemma_room(a + 1, b);
            assert(self.repeats * self.plan.width() >= 0) by (nonlinear_arith)
                requires
                    self.plan.width() >= 0,
            ;
        }
    }

    proof fn lemma_drill_span(&self, slot: int, r: int)
        requires
            self.wf(),
            0 <= r,
        ensures
            between(
                self.drill(slot, r),
                self.teach_at(slot),
                self.teach_at(slot) + r * self.plan.width(),
            ),
        decreases r,
    {
        let w = self.plan.width();
        let at = self.teach_at(slot);
        if r > 0 {
            self.lemma_drill_span(slot, r - 1);
            let i = self.layout@[slot] as int;
            self.lemma_lesson_span(at + (r - 1) * w, i, i, w);
            assert((r - 1) * w + w == r * w) by (nonlinear_arith);
            assert(0 <= (r - 1) * w) by (nonlinear_arith)
                requires
                    0 <= r - 1,
                    0 <= w,
            ;
            lemma_between_add(
                self.drill(slot, r - 1),
                self.lesson(at + (r - 1) * w, i, i, w),
                at,
                at + r * w,
            );
        }
    }

    proof fn lemma_drill_holds(&self, m: Map<usize, u32>, slot: int, k: int, r: int, o: int)
        requires
            self.wf(),
            0 <= slot < self.n(),
            0 <= r < k <= self.repeats,
            0 <= o < self.plan.width(),
        ensures
            ({
                let q = (self.teach_at(slot) + r * self.plan.width() + o) as usize;
                let i = self.layout@[slot] as int;
                &&& written(m, self.drill(slot, k)).contains_key(q)
                &&& written(m, self.drill(slot, k))[q] == self.symbol(i, i, o)
            }),
        decreases k,
    {
        let w = self.plan.width();
        let at = self.teach_at(slot);
        let i = self.layout@[slot] as int;
        assert(0 <= places(self.layout@)[slot] < self.n());
        self.lemma_teach_at(slot);
        let from = at + (k - 1) * w;
        let last = self.lesson(from, i, i, w);
        lemma_written_add(m, self.drill(slot, k - 1), last);
        let before = written(m, self.drill(slot, k - 1));
        assert((k - 1) * w + w <= self.repeats * w && 0 <= (k - 1) * w) by (nonlinear_arith)
            requires
                1 <= k <= self.repeats,
                0 <= w,
        ;
        assert(0 <= r * w) by (nonlinear_arith)
            requires
                0 <= r,
                0 <= w,
        ;
        if r == k - 1 {
            self.lemma_lesson_holds(before, from, i, i, w, o);
        } else {
            self.lemma_drill_holds(m, slot, k - 1, r, o);
            self.lemma_lesson_span(from, i, i, w);
            assert(r * w + w <= (k - 1) * w) by (nonlinear_arith)
                requires
                    r + 1 <= k - 1,
                    0 <= w,
            ;
            lemma_untouched(before, last, from, from + w, (at + r * w + o) as usize);
        }
    }

    proof fn lemma_teaching_holds(&self, k: int, slot: int, r: int, o: int)
        requires
            self.wf(),
            self.roomy(),
            0 <= slot < k <= self.n(),
            0 <= r < self.repeats,
            0 <= o < self.plan.width(),
        ensures
            ({
                let q = (self.teach_at(slot) + r * self.plan.width() + o) as usize;
                let i = self.layout@[slot] as int;
                &&& written(Map::empty(), self.teaching(k)).contains_key(q)
                &&& written(Map::empty(), self.teaching(k))[q] == self.symbol(i, i, o)
            }),
        decreases k,
    {
        let w = self.plan.width();
        let last = self.drill(k - 1, self.repeats as int);
        lemma_written_add(Map::empty(), self.teaching(k - 1), last);
        let before = written(Map::empty(), self.teaching(k - 1));
        if slot == k - 1 {
            self.lemma_drill_holds(before, slot, self.repeats as int, r, o);
        } else {
            self.lemma_teaching_holds(k - 1, slot, r, o);
            self.lemma_drill_span(k - 1, self.repeats as int);
            self.lemma_room(slot, k - 1);
            self.lemma_teach_at(k - 1);
            self.lemma_teach_at(slot);
            assert(0 <= r * w && r * w + w <= self.repeats * w) by (nonlinear_arith)
                requires
                    0 <= r,
                    r + 1 <= self.repeats,
                    0 <= w,
            ;
            lemma_untouched(
                before,
                last,
                self.teach_at(k - 1),
                self.teach_end(k - 1),
                (self.teach_at(slot) + r * w + o) as usize,
            );
        }
    }

    proof fn lemma_asking_span(&self, k: int)
        requires
            self.wf(),
            0 <= k <= self.n(),
        ensures
            between(self.asking(k), self.body as int, self.body + self.n() * self.plan.width()),
        decreases k,
    {
        let w = self.plan.width();
        if k > 0 {
            self.lemma_asking_span(k - 1);
            let i = self.order@[k - 1] as int;
            let v = answer_of(self.foils(), i);
            let at = self.ask_at(k - 1);
            self.lemma_ask_at(k - 1);
            self.lemma_lesson_span(at, i, v, w);
            let l = self.lesson(at, i, v, w);
            assert(between(l, self.body as int, self.body + self.n() * w)) by {
                assert forall|j: int| 0 <= j < l.len() implies self.body <= (#[trigger] l[j]).0
                    < self.body + self.n() * w by {
                    assert(at <= l[j].0 < at + w);
                }
            }
            lemma_between_add(self.asking(k - 1), l, self.body as int, self.body + self.n() * w);
        }
    }
}

/// Where the lessons have room, every one of them stands as it was laid down:
/// in each repetition the prompt of the needle taught there, and its own value.
pub proof fn law_lessons_stand(s: Straw, slot: int, r: int, o: int)
    requires
        s.wf(),
        s.roomy(),
        0 <= slot < s.n(),
        0 <= r < s.repeats,
        0 <= o < s.plan.width(),
    ensures
        ({
            let q = (s.teach_at(slot) + r * s.plan.width() + o) as usize;
            let i = s.layout@[slot] as int;
            &&& s.forced().contains_key(q)
            &&& s.forced()[q] == s.symbol(i, i, o)
        }),
{
    let w = s.plan.width();
    s.lemma_teaching_holds(s.n(), slot, r, o);
    lemma_written_add(Map::empty(), s.teaching(s.n()), s.asking(s.n()));
    s.lemma_asking_span(s.n());
    s.lemma_teach_at(slot);
    assert(0 <= r * w && r * w + w <= s.repeats * w) by (nonlinear_arith)
        requires
            0 <= r,
            r + 1 <= s.repeats,
            0 <= w,
    ;
    if slot < s.n() - 1 {
        s.lemma_room(slot, s.n() - 1);
        assert(s.repeats * w >= 0) by (nonlinear_arith)
            requires
                w >= 0,
        ;
    }
    lemma_untouched(
        written(Map::empty(), s.teaching(s.n())),
        s.asking(s.n()),
        s.body as int,
        s.body + s.n() * w,
        (s.teach_at(slot) + r * w + o) as usize,
    );
}

/// The lessons are spread evenly over the body: between two teaching places lies
/// as much of it as they are places apart, to within one token, and the first is
/// not at its very start.
pub proof fn law_lessons_are_spread(s: Straw, a: int, b: int)
    requires
        s.wf(),
        0 <= a <= b < s.n(),
    ensures
        (s.n() + 2) * (s.teach_at(b) - s.teach_at(a)) < (b - a) * s.body + (s.n() + 2),
        (s.n() + 2) * (s.teach_at(b) - s.teach_at(a)) > (b - a) * s.body - (s.n() + 2),
        s.body >= s.n() + 2 ==> s.teach_at(0) > 0,
        (s.n() + 2) * s.teach_at(0) <= s.body,
        s.teach_at(a) <= s.teach_at(b),
{
    let g = s.n() + 2;
    let x = (a + 1) * s.body;
    let y = (b + 1) * s.body;
    assert(y - x == (b - a) * s.body && x <= y && 0 <= x) by (nonlinear_arith)
        requires
            x == (a + 1) * s.body,
            y == (b + 1) * s.body,
            0 <= a <= b,
            0 <= s.body,
    ;
    vstd::arithmetic::div_mod::lemma_fundamental_div_mod(x, g);
    vstd::arithmetic::div_mod::lemma_mod_pos_bound(x, g);
    vstd::arithmetic::div_mod::lemma_fundamental_div_mod(y, g);
    vstd::arithmetic::div_mod::lemma_mod_pos_bound(y, g);
    vstd::arithmetic::div_mod::lemma_div_is_ordered(x, y, g);
    assert(g * (y / g - x / g) == g * (y / g) - g * (x / g)) by (nonlinear_arith);
    assert((0 + 1) * s.body == s.body) by (nonlinear_arith);
    vstd::arithmetic::div_mod::lemma_fundamental_div_mod(s.body as int, g);
    vstd::arithmetic::div_mod::lemma_mod_pos_bound(s.body as int, g);
    if s.body >= g && s.teach_at(0) <= 0 {
        assert(g * s.teach_at(0) <= 0) by (nonlinear_arith)
            requires
                g > 0,
                s.teach_at(0) <= 0,
        ;
    }
}

/// Where a share of the body is as long as the lessons in a place, the lessons
/// have room: none reaches into the next place or into the questions.
pub proof fn law_lessons_have_room(s: Straw)
    requires
        s.wf(),
        s.repeats * s.plan.width() <= s.body as int / (s.n() + 2),
    ensures
        s.roomy(),
{
    let g = s.n() + 2;
    let l = s.repeats * s.plan.width();
    let q = s.body as int / g;
    vstd::arithmetic::div_mod::lemma_fundamental_div_mod(s.body as int, g);
    vstd::arithmetic::div_mod::lemma_mod_pos_bound(s.body as int, g);
    assert forall|k: int| 0 <= k < s.n() - 1 implies #[trigger] s.teach_end(k) <= s.teach_at(
        k + 1,
    ) by {
        lemma_share(s.body as int, g, k + 1);
    }
    let last = s.n() - 1;
    lemma_share(s.body as int, g, s.n());
    lemma_share(s.body as int, g, s.n() + 1);
    assert((s.n() + 2) * s.body == g * s.body) by (nonlinear_arith)
        requires
            g == s.n() + 2,
    ;
    assert(g * s.body / g == s.body) by {
        vstd::arithmetic::div_mod::lemma_div_multiples_vanish(s.body as int, g);
    }
}

/// One more share of a body moves a place on by at least a whole share.
proof fn lemma_share(body: int, g: int, k: int)
    requires
        0 <= body,
        1 <= g,
        0 <= k,
    ensures
        k * body / g + body / g <= (k + 1) * body / g,
{
    let x = k * body;
    assert((k + 1) * body == x + body && 0 <= x) by (nonlinear_arith)
        requires
            x == k * body,
            0 <= k,
            0 <= body,
    ;
    vstd::arithmetic::div_mod::lemma_fundamental_div_mod(x, g);
    vstd::arithmetic::div_mod::lemma_mod_pos_bound(x, g);
    vstd::arithmetic::div_mod::lemma_fundamental_div_mod(body, g);
    vstd::arithmetic::div_mod::lemma_mod_pos_bound(body, g);
    let low = x / g + body / g;
    assert(g * low == g * (x / g) + g * (body / g)) by (nonlinear_arith)
        requires
            low == x / g + body / g,
    ;
    assert(low * g == g * low) by (nonlinear_arith);
    vstd::arithmetic::div_mod::lemma_div_is_ordered(low * g, x + body, g);
    vstd::arithmetic::div_mod::lemma_div_multiples_vanish(low, g);
    assert(g * low / g == low);
}

/// Every needle is taught: where a share of the body is as long as its lessons,
/// each repetition of it stands in the stream, prompt and own value, whole and
/// before the questions.
pub proof fn law_every_needle_is_taught(s: Straw, i: int, r: int, o: int)
    requires
        s.wf(),
        s.repeats * s.plan.width() <= s.body as int / (s.n() + 2),
        0 <= i < s.n(),
        0 <= r < s.repeats,
        0 <= o < s.plan.width() - 1,
    ensures
        ({
            let at = s.teach_at(s.place_of(i)) + r * s.plan.width();
            &&& 0 <= s.place_of(i) < s.n()
            &&& s.layout@[s.place_of(i)] == i
            &&& 0 <= at
            &&& at + s.plan.width() <= s.body
            &&& s.forced().contains_key((at + o) as usize)
            &&& s.forced()[(at + o) as usize] == s.base + s.plan.prompt@[i]@[o]
            &&& s.forced().contains_key((at + s.plan.width() - 1) as usize)
            &&& s.forced()[(at + s.plan.width() - 1) as usize] == s.base + s.plan.value@[i]
        }),
{
    let w = s.plan.width();
    law_lessons_have_room(s);
    lemma_onto(places(s.layout@), i);
    let slot = s.place_of(i);
    assert(places(s.layout@)[slot] == i);
    law_lessons_stand(s, slot, r, o);
    law_lessons_stand(s, slot, r, w - 1);
    s.lemma_teach_at(slot);
    assert(0 <= r * w && r * w + w <= s.repeats * w) by (nonlinear_arith)
        requires
            0 <= r,
            r + 1 <= s.repeats,
            0 <= w,
    ;
    if slot < s.n() - 1 {
        s.lemma_room(slot, s.n() - 1);
    }
}

/// Every needle is asked for after the body, question upon question: the whole of
/// its prompt, and then the value of the needle whose turn it is to be asked.
pub proof fn law_every_needle_is_asked(s: Straw, slot: int, o: int)
    requires
        s.wf(),
        0 <= slot < s.n(),
        0 <= o < s.plan.width() - 1,
    ensures
        s.ask_at(0) == s.body,
        s.ask_at(slot + 1) == s.ask_at(slot) + s.plan.width(),
        ({
            let i = s.order@[slot] as int;
            let at = s.ask_at(slot);
            &&& s.forced().contains_key((at + o) as usize)
            &&& s.forced()[(at + o) as usize] == s.base + s.plan.prompt@[i]@[o]
            &&& s.forced()[(at + s.plan.width() - 1) as usize] == s.base
                + s.plan.value@[answer_of(s.foils(), i)]
        }),
{
    let w = s.plan.width();
    assert(0 * w == 0 && (slot + 1) * w == slot * w + w) by (nonlinear_arith);
    lemma_written_add(Map::empty(), s.teaching(s.n()), s.asking(s.n()));
    let taught = written(Map::empty(), s.teaching(s.n()));
    s.lemma_asking_holds(taught, s.n(), slot, o);
    s.lemma_asking_holds(taught, s.n(), slot, w - 1);
}

/// Each needle has one last lesson and one question, and no two fall together:
/// there are as many of either as there are needles, and what is looked at there
/// is the last symbol of the prompt.
pub proof fn law_lessons_and_questions_are_counted(s: Straw, slot: int)
    requires
        s.wf(),
        s.repeats * s.plan.width() <= s.body as int / (s.n() + 2),
        0 <= slot < s.n(),
    ensures
        s.last_lessons(s.n()).dom().len() == s.n(),
        s.questions(s.n()).dom().len() == s.n(),
        s.last_lessons(s.n()).contains_key((s.teach_end(slot) - 2) as usize),
        s.last_lessons(s.n())[(s.teach_end(slot) - 2) as usize] == s.layout@[slot],
        s.questions(s.n()).contains_key((s.ask_at(slot + 1) - 2) as usize),
        s.questions(s.n())[(s.ask_at(slot + 1) - 2) as usize] == s.order@[slot],
{
    law_lessons_have_room(s);
    s.lemma_lessons_counted(s.n());
    s.lemma_questions_counted(s.n());
    s.lemma_questions(s.n(), slot);
    let w = s.plan.width();
    assert((slot + 1) * w == slot * w + w) by (nonlinear_arith);
    s.lemma_last_lesson(s.n(), slot);
}

impl Straw {
    proof fn lemma_lesson_key(&self, slot: int)
        requires
            self.wf(),
            0 <= slot < self.n(),
        ensures
            0 <= self.teach_end(slot) - 2 <= usize::MAX,
            self.teach_at(slot) + (self.repeats - 1) * self.plan.width() + self.plan.width() - 2
                == self.teach_end(slot) - 2,
            self.repeats * self.plan.width() >= 2,
    {
        let w = self.plan.width();
        self.lemma_teach_at(slot);
        assert((self.repeats - 1) * w + w == self.repeats * w) by (nonlinear_arith);
        assert(self.plan.prompt@.len() == self.n());
        assert(self.repeats * w >= 2) by (nonlinear_arith)
            requires
                self.repeats >= 1,
                w >= 2,
        ;
    }

    proof fn lemma_last_lesson(&self, k: int, slot: int)
        requires
            self.wf(),
            self.roomy(),
            0 <= slot < k <= self.n(),
        ensures
            self.last_lessons(k).contains_key((self.teach_end(slot) - 2) as usize),
            self.last_lessons(k)[(self.teach_end(slot) - 2) as usize] == self.layout@[slot],
        decreases k,
    {
        self.lemma_lesson_key(slot);
        self.lemma_lesson_key(k - 1);
        if slot < k - 1 {
            self.lemma_last_lesson(k - 1, slot);
            self.lemma_room(slot, k - 1);
        }
    }

    /// What holds of every key of the lessons in the first places.
    proof fn lemma_lesson_keys(&self, k: int, q: usize)
        requires
            self.wf(),
            self.roomy(),
            0 <= k < self.n(),
            self.last_lessons(k).contains_key(q),
        ensures
            q < self.teach_end(k) - 2,
        decreases k,
    {
        if k > 0 {
            self.lemma_lesson_key(k - 1);
            self.lemma_lesson_key(k);
            self.lemma_room(k - 1, k);
            if q != (self.teach_end(k - 1) - 2) as usize {
                self.lemma_lesson_keys(k - 1, q);
            }
        }
    }

    proof fn lemma_lessons_counted(&self, k: int)
        requires
            self.wf(),
            self.roomy(),
            0 <= k <= self.n(),
        ensures
            self.last_lessons(k).dom().finite(),
            self.last_lessons(k).dom().len() == k,
        decreases k,
    {
        if k > 0 {
            self.lemma_lessons_counted(k - 1);
            self.lemma_lesson_key(k - 1);
            let q = (self.teach_end(k - 1) - 2) as usize;
            if self.last_lessons(k - 1).contains_key(q) {
                self.lemma_lesson_keys(k - 1, q);
            }
            assert(self.last_lessons(k).dom() =~= self.last_lessons(k - 1).dom().insert(q));
        } else {
            assert(self.last_lessons(k).dom() =~= Set::empty());
        }
    }

    proof fn lemma_question_keys(&self, k: int, q: usize)
        requires
            self.wf(),
            0 <= k < self.n(),
            self.questions(k).contains_key(q),
        ensures
            q < self.ask_at(k) + self.plan.width() - 2,
        decreases k,
    {
        if k > 0 {
            let w = self.plan.width();
            assert(self.plan.prompt@.len() == self.n());
            self.lemma_ask_at(k - 1);
            self.lemma_ask_at(k);
            assert(k * w == (k - 1) * w + w) by (nonlinear_arith);
            if q != (self.ask_at(k - 1) + w - 2) as usize {
                self.lemma_question_keys(k - 1, q);
            }
        }
    }

    proof fn lemma_questions_counted(&self, k: int)
        requires
            self.wf(),
            0 <= k <= self.n(),
        ensures
            self.questions(k).dom().finite(),
            self.questions(k).dom().len() == k,
        decreases k,
    {
        if k > 0 {
            self.lemma_questions_counted(k - 1);
            self.lemma_ask_at(k - 1);
            assert(self.plan.prompt@.len() == self.n());
            let q = (self.ask_at(k - 1) + self.plan.width() - 2) as usize;
            if self.questions(k - 1).contains_key(q) {
                self.lemma_question_keys(k - 1, q);
            }
            assert(self.questions(k).dom() =~= self.questions(k - 1).dom().insert(q));
        } else {
            assert(self.questions(k).dom() =~= Set::empty());
        }
    }
}

/// A foil is asked for the value of the next foil, and the last for the first
/// one's; a foil that is alone is asked for the first of the others.
pub proof fn law_foils_take_the_next_ones_value(foil: Seq<bool>, i: int, j: int)
    requires
        0 <= i < foil.len(),
        0 <= j < foil.len(),
        foil[i],
        i != j,
    ensures
        foil[j] && i < answer_of(foil, i) ==> !(i < j < answer_of(foil, i)),
        foil[j] && answer_of(foil, i) < i ==> answer_of(foil, i) <= j < i,
        (forall|k: int| 0 <= k < foil.len() && k != i ==> !#[trigger] foil[k]) ==> answer_of(foil, i)
            <= j,
{
    let n = foil.len() as int;
    let odd = flagged(foil, n);
    lemma_flagged(foil, n);
    assert(odd.contains(i));
    let a = odd.index_of(i);
    assert(0 <= a < odd.len() && odd[a] == i);
    lemma_next_place(a, odd.len() as int);
    if foil[j] {
        assert(odd.contains(j));
        let b = odd.index_of(j);
        assert(0 <= b < odd.len() && odd[b] == j);
        assert(odd.len() >= 2);
        if a + 1 < odd.len() && i < j && b != a + 1 {
            assert(b > a + 1);
            assert(odd[a + 1] < odd[b]);
        }
        if a + 1 < odd.len() {
            assert(odd[a] < odd[a + 1]);
        } else {
            assert(b < a);
        }
    }
    if forall|k: int| 0 <= k < foil.len() && k != i ==> !#[trigger] foil[k] {
        if odd.len() >= 2 {
            let other = if a == 0 {
                1
            } else {
                0int
            };
            assert(foil[odd[other]]);
            assert(odd[other] != i);
        }
    }
}

} // verus!
