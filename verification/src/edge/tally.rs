//! Which classes each domain's writes landed in.

use crate::edge::growth::{stretch, visit_stretch};
use vstd::prelude::*;

verus! {

/// A count in a row that holds four counts for each class, one for each stretch
/// of a visit.
pub open spec fn in_row(row: Seq<u64>, c: int, b: int) -> int {
    if 0 <= c && 0 <= b < 4 && 4 * c + b < row.len() {
        row[4 * c + b] as int
    } else {
        0
    }
}

/// A domain's writes to a class in a stretch of its visits.
pub open spec fn count_at(rows: Seq<Seq<u64>>, d: int, c: int, b: int) -> int {
    if 0 <= d < rows.len() {
        in_row(rows[d], c, b)
    } else {
        0
    }
}

/// How far into a visit the stream is once the domain is `now`.
pub open spec fn step_in(was: int, now: int, step: int) -> int {
    if now == was {
        step
    } else {
        0
    }
}

/// How much a write, given as domain, class and stretch, adds to a count.
pub open spec fn counts_more(write: (int, int, int), count: (int, int, int)) -> int {
    if count.0 == write.0 && count.1 == write.1 && count.2 == write.2 {
        1
    } else {
        0
    }
}

/// The writes in a row to a class.
pub open spec fn class_writes(row: Seq<u64>, c: int) -> int {
    in_row(row, c, 0) + in_row(row, c, 1) + in_row(row, c, 2) + in_row(row, c, 3)
}

/// The class among the first `n` that a row has most writes to, the lowest
/// among equals; none where there are no writes.
pub open spec fn home_below(row: Seq<u64>, n: int) -> Option<int>
    decreases n,
{
    if n <= 0 {
        None
    } else {
        match home_below(row, n - 1) {
            Some(c) => if class_writes(row, n - 1) > class_writes(row, c) {
                Some(n - 1)
            } else {
                Some(c)
            },
            None => if class_writes(row, n - 1) > 0 {
                Some(n - 1)
            } else {
                None
            },
        }
    }
}

/// A domain's home: the class it wrote to most.
pub open spec fn home(row: Seq<u64>) -> Option<int> {
    home_below(row, row.len() as int / 4)
}

/// A home has the most writes, and some.
pub proof fn law_home_has_most_writes(row: Seq<u64>, n: int)
    requires
        0 <= n,
    ensures
        match home_below(row, n) {
            Some(c) => {
                &&& 0 <= c < n
                &&& class_writes(row, c) > 0
                &&& forall|k: int| 0 <= k < n ==> #[trigger] class_writes(row, k) <= class_writes(row, c)
            },
            None => forall|k: int| 0 <= k < n ==> #[trigger] class_writes(row, k) == 0,
        },
    decreases n,
{
    if n > 0 {
        law_home_has_most_writes(row, n - 1);
    }
}

/// Which counts a sum is taken over.
#[derive(Clone, Copy, Debug, PartialEq, Eq, Structural)]
pub enum Pick {
    /// Every write.
    All,
    /// Writes outside the domain's home.
    Away,
    /// Writes in one stretch of a visit.
    In(usize),
    /// Writes outside the domain's home in one stretch of a visit.
    AwayIn(usize),
    /// Writes to a class that is home to more than one domain.
    Shared,
}

/// How many of the first `n` domains have their home in class `c`.
pub open spec fn owners(homes: Seq<Option<usize>>, c: int, n: int) -> int
    decreases n,
{
    if n <= 0 {
        0
    } else {
        owners(homes, c, n - 1) + if homes[n - 1] is Some && homes[n - 1]->0 == c {
            1int
        } else {
            0
        }
    }
}

/// Whether the count at place `k` of a domain's row belongs to a sum.
pub open spec fn picked(p: Pick, homes: Seq<Option<usize>>, d: int, k: int) -> bool {
    let away = !(homes[d] is Some && homes[d]->0 == k / 4);
    match p {
        Pick::All => true,
        Pick::Away => away,
        Pick::In(b) => k % 4 == b,
        Pick::AwayIn(b) => away && k % 4 == b,
        Pick::Shared => owners(homes, k / 4, homes.len() as int) > 1,
    }
}

/// The sum over the first `n` counts of a domain's row.
pub open spec fn row_sum(
    row: Seq<u64>,
    p: Pick,
    homes: Seq<Option<usize>>,
    d: int,
    n: int,
) -> int
    decreases n,
{
    if n <= 0 {
        0
    } else {
        row_sum(row, p, homes, d, n - 1) + if picked(p, homes, d, n - 1) {
            row[n - 1] as int
        } else {
            0
        }
    }
}

/// The sum over the rows of the first `n` domains.
pub open spec fn table_sum(
    rows: Seq<Seq<u64>>,
    p: Pick,
    homes: Seq<Option<usize>>,
    n: int,
) -> int
    decreases n,
{
    if n <= 0 {
        0
    } else {
        table_sum(rows, p, homes, n - 1) + row_sum(
            rows[n - 1],
            p,
            homes,
            n - 1,
            rows[n - 1].len() as int,
        )
    }
}

proof fn lemma_row_bound(row: Seq<u64>, p: Pick, homes: Seq<Option<usize>>, d: int, n: int)
    requires
        0 <= n <= row.len(),
    ensures
        0 <= row_sum(row, p, homes, d, n) <= row_sum(row, Pick::All, homes, d, n),
    decreases n,
{
    if n > 0 {
        lemma_row_bound(row, p, homes, d, n - 1);
    }
}

proof fn lemma_row_mono(
    row: Seq<u64>,
    p: Pick,
    homes: Seq<Option<usize>>,
    d: int,
    m: int,
    n: int,
)
    requires
        0 <= m <= n <= row.len(),
    ensures
        row_sum(row, p, homes, d, m) <= row_sum(row, p, homes, d, n),
    decreases n - m,
{
    if m < n {
        lemma_row_mono(row, p, homes, d, m, n - 1);
    }
}

proof fn lemma_table_bound(rows: Seq<Seq<u64>>, p: Pick, homes: Seq<Option<usize>>, n: int)
    requires
        0 <= n <= rows.len(),
    ensures
        0 <= table_sum(rows, p, homes, n) <= table_sum(rows, Pick::All, homes, n),
    decreases n,
{
    if n > 0 {
        lemma_table_bound(rows, p, homes, n - 1);
        lemma_row_bound(rows[n - 1], p, homes, n - 1, rows[n - 1].len() as int);
    }
}

proof fn lemma_table_mono(
    rows: Seq<Seq<u64>>,
    p: Pick,
    homes: Seq<Option<usize>>,
    m: int,
    n: int,
)
    requires
        0 <= m <= n <= rows.len(),
    ensures
        table_sum(rows, p, homes, m) <= table_sum(rows, p, homes, n),
    decreases n - m,
{
    if m < n {
        lemma_table_mono(rows, p, homes, m, n - 1);
        lemma_row_bound(rows[n - 1], p, homes, n - 1, rows[n - 1].len() as int);
    }
}

/// A sum over everything does not ask for homes.
proof fn lemma_all_row(
    row: Seq<u64>,
    a: Seq<Option<usize>>,
    b: Seq<Option<usize>>,
    d: int,
    e: int,
    n: int,
)
    ensures
        row_sum(row, Pick::All, a, d, n) == row_sum(row, Pick::All, b, e, n),
    decreases n,
{
    if n > 0 {
        lemma_all_row(row, a, b, d, e, n - 1);
    }
}

proof fn lemma_all_table(
    rows: Seq<Seq<u64>>,
    a: Seq<Option<usize>>,
    b: Seq<Option<usize>>,
    n: int,
)
    ensures
        table_sum(rows, Pick::All, a, n) == table_sum(rows, Pick::All, b, n),
    decreases n,
{
    if n > 0 {
        lemma_all_table(rows, a, b, n - 1);
        lemma_all_row(rows[n - 1], a, b, n - 1, n - 1, rows[n - 1].len() as int);
    }
}

/// One more write adds one to the sum of its row.
proof fn lemma_row_bump(row: Seq<u64>, i: int, v: u64, d: int, n: int)
    requires
        0 <= n <= row.len(),
        0 <= i < row.len(),
        v == row[i] + 1,
    ensures
        row_sum(row.update(i, v), Pick::All, seq![], d, n) == row_sum(
            row,
            Pick::All,
            seq![],
            d,
            n,
        ) + if i < n {
            1int
        } else {
            0
        },
    decreases n,
{
    if n > 0 {
        lemma_row_bump(row, i, v, d, n - 1);
    }
}

/// Empty counts at the end of a row add nothing.
proof fn lemma_row_padded(row: Seq<u64>, longer: Seq<u64>, d: int, n: int)
    requires
        row.len() <= longer.len(),
        0 <= n <= longer.len(),
        forall|k: int| 0 <= k < row.len() ==> longer[k] == row[k],
        forall|k: int| row.len() <= k < longer.len() ==> longer[k] == 0,
    ensures
        row_sum(longer, Pick::All, seq![], d, n) == row_sum(
            row,
            Pick::All,
            seq![],
            d,
            if n < row.len() {
                n
            } else {
                row.len() as int
            },
        ),
    decreases n,
{
    if n > 0 {
        lemma_row_padded(row, longer, d, n - 1);
    }
}

/// Changing one row changes the sum of the table by as much.
proof fn lemma_table_update(rows: Seq<Seq<u64>>, d: int, row: Seq<u64>, n: int)
    requires
        0 <= n <= rows.len(),
        0 <= d < rows.len(),
    ensures
        table_sum(rows.update(d, row), Pick::All, seq![], n) == table_sum(
            rows,
            Pick::All,
            seq![],
            n,
        ) + if d < n {
            row_sum(row, Pick::All, seq![], d, row.len() as int) - row_sum(
                rows[d],
                Pick::All,
                seq![],
                d,
                rows[d].len() as int,
            )
        } else {
            0
        },
    decreases n,
{
    if n > 0 {
        lemma_table_update(rows, d, row, n - 1);
    }
}

/// Empty rows at the end add nothing.
proof fn lemma_table_padded(rows: Seq<Seq<u64>>, longer: Seq<Seq<u64>>, n: int)
    requires
        rows.len() <= longer.len(),
        0 <= n <= longer.len(),
        forall|k: int| 0 <= k < rows.len() ==> longer[k] == rows[k],
        forall|k: int| rows.len() <= k < longer.len() ==> (#[trigger] longer[k]).len() == 0,
    ensures
        table_sum(longer, Pick::All, seq![], n) == table_sum(
            rows,
            Pick::All,
            seq![],
            if n < rows.len() {
                n
            } else {
                rows.len() as int
            },
        ),
    decreases n,
{
    if n > 0 {
        lemma_table_padded(rows, longer, n - 1);
    }
}

/// The counts that rows of numbers stand for.
pub open spec fn rows_of(v: Seq<Vec<u64>>) -> Seq<Seq<u64>> {
    v.map_values(|r: Vec<u64>| r@)
}

/// Adds one to the count of a class and a stretch, making room for it first.
fn bump_row(row: &mut Vec<u64>, c: usize, b: usize)
    requires
        old(row)@.len() % 4 == 0,
        b < 4,
        4 * c + 4 <= usize::MAX,
        row_sum(old(row)@, Pick::All, seq![], 0, old(row)@.len() as int) < u64::MAX,
    ensures
        final(row)@.len() % 4 == 0,
        forall|k: int, e: int| #[trigger]
            in_row(final(row)@, k, e) == in_row(old(row)@, k, e) + if k == c && e == b {
                1int
            } else {
                0
            },
        row_sum(final(row)@, Pick::All, seq![], 0, final(row)@.len() as int) == row_sum(
            old(row)@,
            Pick::All,
            seq![],
            0,
            old(row)@.len() as int,
        ) + 1,
{
    let ghost was = row@;
    while row.len() < 4 * c + 4
        invariant
            4 * c + 4 <= usize::MAX,
            was.len() <= row@.len(),
            row@.len() % 4 == 0,
            forall|k: int| 0 <= k < was.len() ==> row@[k] == was[k],
            forall|k: int| was.len() <= k < row@.len() ==> row@[k] == 0,
        decreases 4 * c + 4 - row@.len(),
    {
        row.push(0);
        row.push(0);
        row.push(0);
        row.push(0);
    }
    let i: usize = 4 * c + b;
    let ghost padded = row@;
    proof {
        lemma_row_padded(was, padded, 0, padded.len() as int);
        lemma_member_bound(padded, i as int, padded.len() as int);
    }
    let had: u64 = row[i];
    row.set(i, had + 1);
    proof {
        lemma_row_bump(padded, i as int, (had + 1) as u64, 0, padded.len() as int);
        assert forall|k: int, e: int| #[trigger] in_row(row@, k, e) == in_row(was, k, e) + if k == c
            && e == b {
            1int
        } else {
            0
        } by {
            if 0 <= k && 0 <= e < 4 && 4 * k + e == i {
                assert(k == c && e == b);
            }
        }
    }
}

/// No count is larger than the sum of its row.
proof fn lemma_member_bound(row: Seq<u64>, i: int, n: int)
    requires
        0 <= i < n <= row.len(),
    ensures
        row[i] <= row_sum(row, Pick::All, seq![], 0, n),
    decreases n,
{
    lemma_row_bound(row, Pick::All, seq![], 0, n - 1);
    if i < n - 1 {
        lemma_member_bound(row, i, n - 1);
    }
}

/// Which classes each domain's facts actually landed in, by how far into the
/// visit.
#[derive(Clone, Debug)]
pub struct Tally {
    rows: Vec<Vec<u64>>,
    records: u64,
    cur_domain: usize,
    visit_step: u64,
}

impl View for Tally {
    type V = Seq<Seq<u64>>;

    closed spec fn view(&self) -> Seq<Seq<u64>> {
        rows_of(self.rows@)
    }
}

impl Tally {
    /// The writes recorded so far are those in the rows.
    pub closed spec fn wf(&self) -> bool {
        &&& self.records == table_sum(self@, Pick::All, seq![], self@.len() as int)
        &&& forall|d: int| 0 <= d < self@.len() ==> (#[trigger] self@[d]).len() % 4 == 0
    }

    /// The domain being trained.
    pub closed spec fn domain(&self) -> int {
        self.cur_domain as int
    }

    /// Writes since the domain last changed.
    pub closed spec fn step(&self) -> int {
        self.visit_step as int
    }

    /// Writes so far.
    pub closed spec fn written(&self) -> int {
        self.records as int
    }

    /// Nothing written yet, in domain zero.
    pub fn new() -> (t: Self)
        ensures
            t.wf(),
            t@ == Seq::<Seq<u64>>::empty(),
            t.domain() == 0,
            t.step() == 0,
            t.written() == 0,
    {
        let t = Tally { rows: Vec::new(), records: 0, cur_domain: 0, visit_step: 0 };
        assert(t@ =~= Seq::empty());
        t
    }

    /// Tells which domain is being trained. A new domain starts a new visit.
    pub fn set_domain(&mut self, d: usize)
        requires
            old(self).wf(),
        ensures
            final(self).wf(),
            final(self)@ == old(self)@,
            final(self).domain() == d,
            final(self).step() == step_in(old(self).domain(), d as int, old(self).step()),
            final(self).written() == old(self).written(),
    {
        if d != self.cur_domain {
            self.visit_step = 0;
        }
        self.cur_domain = d;
    }

    /// How far into the visit the stream is.
    pub fn visit_step(&self) -> (n: u64)
        ensures
            n == self.step(),
    {
        self.visit_step
    }

    /// The domain being trained.
    pub fn cur_domain(&self) -> (d: usize)
        ensures
            d == self.domain(),
    {
        self.cur_domain
    }

    /// Records one write to a class.
    pub fn record(&mut self, c: usize)
        requires
            old(self).wf(),
            4 * c + 4 <= usize::MAX,
            old(self).domain() < usize::MAX,
            old(self).step() < u64::MAX,
            old(self).written() < u64::MAX,
        ensures
            final(self).wf(),
            forall|d: int, k: int, b: int| #[trigger]
                count_at(final(self)@, d, k, b) == count_at(old(self)@, d, k, b) + counts_more(
                    (old(self).domain(), c as int, stretch(old(self).step())),
                    (d, k, b),
                ),
            final(self).domain() == old(self).domain(),
            final(self).step() == old(self).step() + 1,
            final(self).written() == old(self).written() + 1,
    {
        let d: usize = self.cur_domain;
        let b: usize = visit_stretch(self.visit_step);
        let ghost was = self@;
        while self.rows.len() <= d
            invariant
                d == self.cur_domain,
                d < usize::MAX,
                self.cur_domain == old(self).cur_domain,
                self.visit_step == old(self).visit_step,
                self.records == old(self).records,
                was == rows_of(old(self).rows@),
                was.len() <= self.rows@.len(),
                forall|k: int| 0 <= k < was.len() ==> rows_of(self.rows@)[k] == was[k],
                forall|k: int|
                    was.len() <= k < self.rows@.len() ==> (#[trigger] rows_of(
                        self.rows@,
                    )[k]).len() == 0,
                forall|k: int| 0 <= k < was.len() ==> (#[trigger] was[k]).len() % 4 == 0,
            decreases d + 1 - self.rows@.len(),
        {
            let ghost short = self.rows@;
            let empty: Vec<u64> = Vec::new();
            self.rows.push(empty);
            proof {
                assert forall|k: int| was.len() <= k < self.rows@.len() implies (#[trigger] rows_of(
                    self.rows@,
                )[k]).len() == 0 by {
                    if k < short.len() {
                        assert(rows_of(short)[k].len() == 0);
                    }
                }
            }
        }
        let ghost padded = rows_of(self.rows@);
        proof {
            lemma_table_padded(was, padded, padded.len() as int);
            lemma_entry_bound(padded, d as int, padded.len() as int);
            lemma_all_row(padded[d as int], seq![], seq![], d as int, 0, padded[d as int].len() as int);
            assert(padded[d as int] == self.rows@[d as int]@);
            if d < was.len() {
                assert(was[d as int].len() % 4 == 0);
            } else {
                assert(padded[d as int].len() == 0);
            }
        }
        bump_row(&mut self.rows[d], c, b);
        self.records = self.records + 1;
        self.visit_step = self.visit_step + 1;
        proof {
            let now = rows_of(self.rows@);
            let row = self.rows@[d as int]@;
            assert(now =~= padded.update(d as int, row));
            lemma_table_update(padded, d as int, row, padded.len() as int);
            lemma_all_row(row, seq![], seq![], d as int, 0, row.len() as int);
            assert forall|e: int, k: int, f: int| #[trigger] count_at(now, e, k, f) == count_at(
                was,
                e,
                k,
                f,
            ) + if e == d && k == c && f == b {
                1int
            } else {
                0
            } by {
                if 0 <= e < now.len() {
                    if e == d {
                        assert(in_row(row, k, f) == in_row(padded[d as int], k, f) + if k == c && f
                            == b {
                            1int
                        } else {
                            0
                        });
                    }
                    assert(e != d ==> now[e] == padded[e]);
                    if e >= was.len() {
                        assert(padded[e].len() == 0);
                    }
                }
            }
            assert forall|e: int| 0 <= e < now.len() implies (#[trigger] now[e]).len() % 4 == 0 by {
                if e != d {
                    assert(now[e] == padded[e]);
                    if e < was.len() {
                        assert(was[e].len() % 4 == 0);
                    }
                }
            }
        }
    }
}

/// No row holds more than the table.
proof fn lemma_entry_bound(rows: Seq<Seq<u64>>, d: int, n: int)
    requires
        0 <= d < n <= rows.len(),
    ensures
        row_sum(rows[d], Pick::All, seq![], d, rows[d].len() as int) <= table_sum(
            rows,
            Pick::All,
            seq![],
            n,
        ),
    decreases n,
{
    lemma_table_bound(rows, Pick::All, seq![], n - 1);
    lemma_row_bound(rows[n - 1], Pick::All, seq![], n - 1, rows[n - 1].len() as int);
    if d < n - 1 {
        lemma_entry_bound(rows, d, n - 1);
    }
}

/// The home of every domain.
pub open spec fn homes_of(rows: Seq<Seq<u64>>) -> Seq<Option<usize>> {
    Seq::new(
        rows.len(),
        |d: int|
            match home(rows[d]) {
                Some(c) => Some(c as usize),
                None => None,
            },
    )
}

/// How many of the first `n` domains have a home.
pub open spec fn settled(homes: Seq<Option<usize>>, n: int) -> int
    decreases n,
{
    if n <= 0 {
        0
    } else {
        settled(homes, n - 1) + if homes[n - 1] is Some {
            1int
        } else {
            0
        }
    }
}

/// How many of the first `n` domains share their home with another domain.
pub open spec fn colliding(homes: Seq<Option<usize>>, n: int) -> int
    decreases n,
{
    if n <= 0 {
        0
    } else {
        colliding(homes, n - 1) + if homes[n - 1] is Some && owners(
            homes,
            homes[n - 1]->0 as int,
            homes.len() as int,
        ) > 1 {
            1int
        } else {
            0
        }
    }
}

/// How many different homes the first `n` domains have.
pub open spec fn distinct_homes(homes: Seq<Option<usize>>, n: int) -> int
    decreases n,
{
    if n <= 0 {
        0
    } else {
        distinct_homes(homes, n - 1) + if homes[n - 1] is Some && owners(
            homes,
            homes[n - 1]->0 as int,
            n - 1,
        ) == 0 {
            1int
        } else {
            0
        }
    }
}

/// The writes of a table that a sum picks.
pub open spec fn total(rows: Seq<Seq<u64>>, p: Pick) -> int {
    table_sum(rows, p, homes_of(rows), rows.len() as int)
}

/// Writes outside a domain's home, and all writes, overall and by how far into
/// the visit they fell.
#[derive(Clone, Copy, Debug)]
pub struct Intrusion {
    pub away: u64,
    pub all: u64,
    pub away_in: [u64; 4],
    pub all_in: [u64; 4],
}

/// How many of the first `n` domains have their home in class `c`.
fn count_owners(homes: &Vec<Option<usize>>, c: usize, n: usize) -> (r: usize)
    requires
        n <= homes@.len(),
    ensures
        r == owners(homes@, c as int, n as int),
        r <= n,
{
    let mut r: usize = 0;
    let mut k: usize = 0;
    while k < n
        invariant
            k <= n <= homes@.len(),
            r == owners(homes@, c as int, k as int),
            r <= k,
        decreases n - k,
    {
        match homes[k] {
            Some(h) => {
                if h == c {
                    r = r + 1;
                }
            },
            None => {},
        }
        k = k + 1;
    }
    r
}

/// The home of a row.
fn find_home(row: &Vec<u64>) -> (h: Option<usize>)
    requires
        row@.len() % 4 == 0,
        row_sum(row@, Pick::All, seq![], 0, row@.len() as int) <= u64::MAX,
    ensures
        h is Some <==> home(row@) is Some,
        h is Some ==> h->0 == home(row@)->0,
{
    let len: usize = row.len();
    let n: usize = len / 4;
    let mut best: Option<usize> = None;
    let mut most: u64 = 0;
    let mut c: usize = 0;
    while c < n
        invariant
            c <= n,
            len == row@.len(),
            n == len as int / 4,
            row@.len() % 4 == 0,
            row_sum(row@, Pick::All, seq![], 0, row@.len() as int) <= u64::MAX,
            best is Some <==> home_below(row@, c as int) is Some,
            best is Some ==> best->0 == home_below(row@, c as int)->0,
            most == match best {
                Some(b) => class_writes(row@, b as int),
                None => 0,
            },
        decreases n - c,
    {
        proof {
            lemma_class_bound(row@, c as int);
        }
        let w: u64 = row[4 * c] + row[4 * c + 1] + row[4 * c + 2] + row[4 * c + 3];
        if w > most {
            best = Some(c);
            most = w;
        }
        c = c + 1;
    }
    best
}

/// The writes of one class are no more than those of its row.
proof fn lemma_class_bound(row: Seq<u64>, c: int)
    requires
        0 <= c,
        4 * c + 4 <= row.len(),
    ensures
        row[4 * c] + row[4 * c + 1] + row[4 * c + 2] + row[4 * c + 3] <= row_sum(
            row,
            Pick::All,
            seq![],
            0,
            row.len() as int,
        ),
{
    lemma_row_bound(row, Pick::All, seq![], 0, 4 * c);
    reveal_with_fuel(row_sum, 5);
    assert(row_sum(row, Pick::All, seq![], 0, 4 * c + 4) == row_sum(
        row,
        Pick::All,
        seq![],
        0,
        4 * c,
    ) + row[4 * c] + row[4 * c + 1] + row[4 * c + 2] + row[4 * c + 3]);
    lemma_row_mono(row, Pick::All, seq![], 0, 4 * c + 4, row.len() as int);
}

impl Tally {
    /// The home of every domain.
    pub fn homes(&self) -> (h: Vec<Option<usize>>)
        requires
            self.wf(),
        ensures
            h@ == homes_of(self@),
    {
        let n: usize = self.rows.len();
        let mut h: Vec<Option<usize>> = Vec::new();
        let mut d: usize = 0;
        while d < n
            invariant
                d <= n,
                n == self@.len(),
                n == self.rows@.len(),
                self.wf(),
                h@.len() == d,
                forall|k: int| 0 <= k < d ==> h@[k] == #[trigger] homes_of(self@)[k],
            decreases n - d,
        {
            proof {
                let row = self@[d as int];
                assert(row == self.rows@[d as int]@);
                lemma_entry_bound(self@, d as int, n as int);
                lemma_all_row(row, seq![], seq![], d as int, 0, row.len() as int);
                law_home_has_most_writes(row, row.len() as int / 4);
            }
            h.push(find_home(&self.rows[d]));
            d = d + 1;
        }
        assert(h@ =~= homes_of(self@));
        h
    }

    /// Adds up the writes that are picked.
    pub fn sum(&self, p: Pick) -> (r: u64)
        requires
            self.wf(),
        ensures
            r == total(self@, p),
            r <= self.written(),
    {
        let homes = self.homes();
        let n: usize = self.rows.len();
        let mut r: u64 = 0;
        let mut d: usize = 0;
        while d < n
            invariant
                d <= n,
                n == self@.len(),
                n == self.rows@.len(),
                self.wf(),
                homes@ == homes_of(self@),
                r == table_sum(self@, p, homes@, d as int),
            decreases n - d,
        {
            let row = &self.rows[d];
            let m: usize = row.len();
            let ghost before = r as int;
            let mut k: usize = 0;
            assert(self@[d as int] == row@);
            while k < m
                invariant
                    k <= m,
                    m == row@.len(),
                    d < n,
                    n == self@.len(),
                    n == self.rows@.len(),
                    self.wf(),
                    homes@ == homes_of(self@),
                    self@[d as int] == row@,
                    before == table_sum(self@, p, homes@, d as int),
                    r == before + row_sum(row@, p, homes@, d as int, k as int),
                decreases m - k,
            {
                let take: bool = picks(p, &homes, d, k);
                proof {
                    lemma_row_mono(row@, p, homes@, d as int, k + 1, m as int);
                    lemma_table_mono(self@, p, homes@, d + 1, n as int);
                    lemma_table_bound(self@, p, homes@, n as int);
                    lemma_all_table(self@, homes@, seq![], n as int);
                }
                if take {
                    r = r + row[k];
                }
                k = k + 1;
            }
            d = d + 1;
        }
        proof {
            lemma_table_bound(self@, p, homes@, n as int);
            lemma_all_table(self@, homes@, seq![], n as int);
        }
        r
    }

    /// How many domains share their home with another, and how many have one.
    pub fn class_collision(&self) -> (r: (usize, usize))
        requires
            self.wf(),
        ensures
            r.0 == colliding(homes_of(self@), self@.len() as int),
            r.1 == settled(homes_of(self@), self@.len() as int),
            r.0 <= r.1,
    {
        let homes = self.homes();
        let n: usize = homes.len();
        let mut hit: usize = 0;
        let mut all: usize = 0;
        let mut d: usize = 0;
        while d < n
            invariant
                d <= n,
                n == homes@.len(),
                hit == colliding(homes@, d as int),
                all == settled(homes@, d as int),
                hit <= all <= d,
            decreases n - d,
        {
            match homes[d] {
                Some(c) => {
                    all = all + 1;
                    if count_owners(&homes, c, n) > 1 {
                        hit = hit + 1;
                    }
                },
                None => {},
            }
            d = d + 1;
        }
        (hit, all)
    }

    /// How many different homes there are, how many writes land in a class that
    /// is home to more than one domain, and how many writes there are.
    pub fn collision_stats(&self) -> (r: (usize, u64, u64))
        requires
            self.wf(),
        ensures
            r.0 == distinct_homes(homes_of(self@), self@.len() as int),
            r.1 == total(self@, Pick::Shared),
            r.2 == total(self@, Pick::All),
            r.1 <= r.2,
    {
        let homes = self.homes();
        let n: usize = homes.len();
        let mut distinct: usize = 0;
        let mut d: usize = 0;
        while d < n
            invariant
                d <= n,
                n == homes@.len(),
                distinct == distinct_homes(homes@, d as int),
                distinct <= d,
            decreases n - d,
        {
            match homes[d] {
                Some(c) => {
                    if count_owners(&homes, c, d) == 0 {
                        distinct = distinct + 1;
                    }
                },
                None => {},
            }
            d = d + 1;
        }
        proof {
            lemma_table_bound(self@, Pick::Shared, homes@, self@.len() as int);
        }
        (distinct, self.sum(Pick::Shared), self.sum(Pick::All))
    }

    /// Writes outside a domain's home, and all writes, overall and by how far
    /// into the visit they fell.
    pub fn intrusion_stats(&self) -> (r: Intrusion)
        requires
            self.wf(),
        ensures
            r.away == total(self@, Pick::Away),
            r.all == total(self@, Pick::All),
            forall|b: int|
                0 <= b < 4 ==> #[trigger] r.away_in@[b] == total(self@, Pick::AwayIn(b as usize)),
            forall|b: int|
                0 <= b < 4 ==> #[trigger] r.all_in@[b] == total(self@, Pick::In(b as usize)),
    {
        let away_in: [u64; 4] = [
            self.sum(Pick::AwayIn(0)),
            self.sum(Pick::AwayIn(1)),
            self.sum(Pick::AwayIn(2)),
            self.sum(Pick::AwayIn(3)),
        ];
        let all_in: [u64; 4] = [
            self.sum(Pick::In(0)),
            self.sum(Pick::In(1)),
            self.sum(Pick::In(2)),
            self.sum(Pick::In(3)),
        ];
        Intrusion { away: self.sum(Pick::Away), all: self.sum(Pick::All), away_in, all_in }
    }

    /// A domain's writes to a class.
    pub fn writes(&self, d: usize, c: usize) -> (n: u64)
        requires
            self.wf(),
        ensures
            n == if d < self@.len() {
                class_writes(self@[d as int], c as int)
            } else {
                0
            },
    {
        if d >= self.rows.len() {
            return 0;
        }
        let row = &self.rows[d];
        assert(self@[d as int] == row@);
        if c >= row.len() / 4 {
            return 0;
        }
        proof {
            lemma_entry_bound(self@, d as int, self@.len() as int);
            lemma_all_row(row@, seq![], seq![], d as int, 0, row@.len() as int);
            lemma_class_bound(row@, c as int);
        }
        row[4 * c] + row[4 * c + 1] + row[4 * c + 2] + row[4 * c + 3]
    }

    /// The writes of the first `domains` domains to the first `classes` classes.
    pub fn domain_class_matrix(&self, domains: usize, classes: usize) -> (m: Vec<Vec<u64>>)
        requires
            self.wf(),
        ensures
            m@.len() == domains,
            forall|d: int| 0 <= d < domains ==> (#[trigger] m@[d])@.len() == classes,
            forall|d: int, c: int|
                0 <= d < domains && 0 <= c < classes ==> #[trigger] m@[d]@[c] == if d < self@.len() {
                    class_writes(self@[d], c)
                } else {
                    0
                },
    {
        let mut m: Vec<Vec<u64>> = Vec::new();
        let mut d: usize = 0;
        while d < domains
            invariant
                d <= domains,
                self.wf(),
                m@.len() == d,
                forall|e: int| 0 <= e < d ==> (#[trigger] m@[e])@.len() == classes,
                forall|e: int, c: int|
                    0 <= e < d && 0 <= c < classes ==> #[trigger] m@[e]@[c] == if e < self@.len() {
                        class_writes(self@[e], c)
                    } else {
                        0
                    },
            decreases domains - d,
        {
            let mut row: Vec<u64> = Vec::new();
            let mut c: usize = 0;
            while c < classes
                invariant
                    c <= classes,
                    d < domains,
                    self.wf(),
                    row@.len() == c,
                    forall|k: int|
                        0 <= k < c ==> #[trigger] row@[k] == if d < self@.len() {
                            class_writes(self@[d as int], k)
                        } else {
                            0
                        },
                decreases classes - c,
            {
                row.push(self.writes(d, c));
                c = c + 1;
            }
            m.push(row);
            d = d + 1;
        }
        m
    }
}

/// Whether the count at place `k` of a domain's row belongs to a sum.
fn picks(p: Pick, homes: &Vec<Option<usize>>, d: usize, k: usize) -> (r: bool)
    requires
        d < homes@.len(),
    ensures
        r == picked(p, homes@, d as int, k as int),
{
    let away: bool = match homes[d] {
        Some(h) => h != k / 4,
        None => true,
    };
    match p {
        Pick::All => true,
        Pick::Away => away,
        Pick::In(b) => k % 4 == b,
        Pick::AwayIn(b) => away && k % 4 == b,
        Pick::Shared => count_owners(homes, k / 4, homes.len()) > 1,
    }
}

proof fn lemma_row_stretches(row: Seq<u64>, homes: Seq<Option<usize>>, d: int, n: int)
    requires
        0 <= n <= row.len(),
    ensures
        row_sum(row, Pick::All, homes, d, n) == row_sum(row, Pick::In(0), homes, d, n) + row_sum(
            row,
            Pick::In(1),
            homes,
            d,
            n,
        ) + row_sum(row, Pick::In(2), homes, d, n) + row_sum(row, Pick::In(3), homes, d, n),
    decreases n,
{
    if n > 0 {
        lemma_row_stretches(row, homes, d, n - 1);
    }
}

proof fn lemma_table_stretches(rows: Seq<Seq<u64>>, homes: Seq<Option<usize>>, n: int)
    requires
        0 <= n <= rows.len(),
    ensures
        table_sum(rows, Pick::All, homes, n) == table_sum(rows, Pick::In(0), homes, n) + table_sum(
            rows,
            Pick::In(1),
            homes,
            n,
        ) + table_sum(rows, Pick::In(2), homes, n) + table_sum(rows, Pick::In(3), homes, n),
    decreases n,
{
    if n > 0 {
        lemma_table_stretches(rows, homes, n - 1);
        lemma_row_stretches(rows[n - 1], homes, n - 1, rows[n - 1].len() as int);
    }
}

/// Every write falls in exactly one stretch of a visit.
pub proof fn law_stretches_add_up(rows: Seq<Seq<u64>>)
    ensures
        total(rows, Pick::All) == total(rows, Pick::In(0)) + total(rows, Pick::In(1)) + total(
            rows,
            Pick::In(2),
        ) + total(rows, Pick::In(3)),
{
    lemma_table_stretches(rows, homes_of(rows), rows.len() as int);
}

proof fn lemma_owner_counts(homes: Seq<Option<usize>>, c: int, n: int)
    requires
        0 <= n <= homes.len(),
    ensures
        0 <= owners(homes, c, n),
        forall|d: int| 0 <= d < n && homes[d] == Some(c as usize) && 0 <= c <= usize::MAX ==> owners(homes, c, n) >= 1,
        forall|d: int, e: int|
            0 <= d < e < n && homes[d] == Some(c as usize) && homes[e] == Some(c as usize) && 0 <= c
                <= usize::MAX ==> owners(homes, c, n) >= 2,
        owners(homes, c, n) >= 1 ==> exists|d: int|
            0 <= d < n && homes[d] is Some && #[trigger] homes[d]->0 == c,
        owners(homes, c, n) >= 2 ==> exists|d: int, e: int|
            0 <= d < e < n && homes[d] is Some && homes[e] is Some && #[trigger] homes[d]->0 == c
                && #[trigger] homes[e]->0 == c,
    decreases n,
{
    if n > 0 {
        lemma_owner_counts(homes, c, n - 1);
        if homes[n - 1] is Some && homes[n - 1]->0 == c {
            assert(homes[n - 1]->0 == c);
        }
    }
}

/// No domain collides exactly where every domain that has a home has it to
/// itself.
pub proof fn law_no_collision_means_own_homes(homes: Seq<Option<usize>>, n: int)
    requires
        0 <= n <= homes.len(),
    ensures
        colliding(homes, n) >= 0,
        colliding(homes, n) == 0 <==> forall|d: int, e: int|
            0 <= d < n && 0 <= e < homes.len() && d != e && homes[d] is Some ==> homes[d]
                != homes[e],
    decreases n,
{
    if n > 0 {
        law_no_collision_means_own_homes(homes, n - 1);
        if homes[n - 1] is Some {
            let c = homes[n - 1]->0 as int;
            lemma_owner_counts(homes, c, homes.len() as int);
            if owners(homes, c, homes.len() as int) > 1 {
                let (d, e) = choose|d: int, e: int|
                    0 <= d < e < homes.len() && homes[d] is Some && homes[e] is Some
                        && #[trigger] homes[d]->0 == c && #[trigger] homes[e]->0 == c;
                let o = if d == n - 1 {
                    e
                } else {
                    d
                };
                assert(homes[o] == homes[n - 1]);
            } else {
                let mine = homes[n - 1];
                assert forall|e: int| 0 <= e < homes.len() && e != n - 1 implies mine
                    != #[trigger] homes[e] by {
                    if homes[e] == homes[n - 1] {
                        if e < n - 1 {
                            assert(homes[e] == Some(c as usize));
                        }
                    }
                }
            }
        }
    }
}

proof fn lemma_row_away(row: Seq<u64>, homes: Seq<Option<usize>>, d: int, n: int)
    requires
        0 <= n <= row.len(),
    ensures
        row_sum(row, Pick::Away, homes, d, n) == row_sum(row, Pick::AwayIn(0), homes, d, n)
            + row_sum(row, Pick::AwayIn(1), homes, d, n) + row_sum(
            row,
            Pick::AwayIn(2),
            homes,
            d,
            n,
        ) + row_sum(row, Pick::AwayIn(3), homes, d, n),
    decreases n,
{
    if n > 0 {
        lemma_row_away(row, homes, d, n - 1);
    }
}

proof fn lemma_table_away(rows: Seq<Seq<u64>>, homes: Seq<Option<usize>>, n: int)
    requires
        0 <= n <= rows.len(),
    ensures
        table_sum(rows, Pick::Away, homes, n) == table_sum(rows, Pick::AwayIn(0), homes, n)
            + table_sum(rows, Pick::AwayIn(1), homes, n) + table_sum(
            rows,
            Pick::AwayIn(2),
            homes,
            n,
        ) + table_sum(rows, Pick::AwayIn(3), homes, n),
    decreases n,
{
    if n > 0 {
        lemma_table_away(rows, homes, n - 1);
        lemma_row_away(rows[n - 1], homes, n - 1, rows[n - 1].len() as int);
    }
}

/// The writes of the first `n` domains to their own homes.
pub open spec fn home_writes(rows: Seq<Seq<u64>>, n: int) -> int
    decreases n,
{
    if n <= 0 {
        0
    } else {
        home_writes(rows, n - 1) + match home(rows[n - 1]) {
            Some(c) => class_writes(rows[n - 1], c),
            None => 0,
        }
    }
}

/// What the first `n` counts of a row hold of a class.
spec fn class_upto(row: Seq<u64>, c: int, n: int) -> int {
    (if 4 * c < n {
        row[4 * c] as int
    } else {
        0
    }) + (if 4 * c + 1 < n {
        row[4 * c + 1] as int
    } else {
        0
    }) + (if 4 * c + 2 < n {
        row[4 * c + 2] as int
    } else {
        0
    }) + (if 4 * c + 3 < n {
        row[4 * c + 3] as int
    } else {
        0
    })
}

proof fn lemma_row_home(row: Seq<u64>, homes: Seq<Option<usize>>, d: int, n: int)
    requires
        0 <= n <= row.len(),
    ensures
        row_sum(row, Pick::All, homes, d, n) - row_sum(row, Pick::Away, homes, d, n)
            == match homes[d] {
            Some(c) => class_upto(row, c as int, n),
            None => 0,
        },
    decreases n,
{
    if n > 0 {
        lemma_row_home(row, homes, d, n - 1);
    }
}

proof fn lemma_table_home(rows: Seq<Seq<u64>>, n: int)
    requires
        0 <= n <= rows.len(),
        forall|d: int| 0 <= d < rows.len() ==> (#[trigger] rows[d]).len() % 4 == 0,
        forall|d: int| 0 <= d < rows.len() ==> (#[trigger] rows[d]).len() <= usize::MAX,
    ensures
        table_sum(rows, Pick::All, homes_of(rows), n) - table_sum(
            rows,
            Pick::Away,
            homes_of(rows),
            n,
        ) == home_writes(rows, n),
    decreases n,
{
    if n > 0 {
        lemma_table_home(rows, n - 1);
        let row = rows[n - 1];
        let len = row.len() as int;
        lemma_row_home(row, homes_of(rows), n - 1, len);
        law_home_has_most_writes(row, len / 4);
        assert(rows[n - 1].len() % 4 == 0);
        assert(rows[n - 1].len() <= usize::MAX);
    }
}

/// Every write is either to the domain's home or away from it, and every write
/// away falls in exactly one stretch of a visit.
pub proof fn law_writes_are_home_or_away(rows: Seq<Seq<u64>>)
    requires
        forall|d: int| 0 <= d < rows.len() ==> (#[trigger] rows[d]).len() % 4 == 0,
        forall|d: int| 0 <= d < rows.len() ==> (#[trigger] rows[d]).len() <= usize::MAX,
    ensures
        total(rows, Pick::All) == total(rows, Pick::Away) + home_writes(rows, rows.len() as int),
        total(rows, Pick::Away) == total(rows, Pick::AwayIn(0)) + total(rows, Pick::AwayIn(1))
            + total(rows, Pick::AwayIn(2)) + total(rows, Pick::AwayIn(3)),
{
    lemma_table_home(rows, rows.len() as int);
    lemma_table_away(rows, homes_of(rows), rows.len() as int);
}

/// Where no two domains share a home, no write lands in a shared class.
pub proof fn law_nothing_is_shared_without_collision(rows: Seq<Seq<u64>>)
    requires
        colliding(homes_of(rows), rows.len() as int) == 0,
    ensures
        total(rows, Pick::Shared) == 0,
{
    let homes = homes_of(rows);
    law_no_collision_means_own_homes(homes, homes.len() as int);
    assert forall|c: int| #[trigger] owners(homes, c, homes.len() as int) <= 1 by {
        lemma_owner_counts(homes, c, homes.len() as int);
        if owners(homes, c, homes.len() as int) >= 2 {
            let (d, e) = choose|d: int, e: int|
                0 <= d < e < homes.len() && homes[d] is Some && homes[e] is Some
                    && #[trigger] homes[d]->0 == c && #[trigger] homes[e]->0 == c;
            assert(homes[d] == homes[e]);
        }
    }
    lemma_none_shared(rows, homes, rows.len() as int);
}

proof fn lemma_none_shared(rows: Seq<Seq<u64>>, homes: Seq<Option<usize>>, n: int)
    requires
        0 <= n <= rows.len(),
        forall|c: int| #[trigger] owners(homes, c, homes.len() as int) <= 1,
    ensures
        table_sum(rows, Pick::Shared, homes, n) == 0,
    decreases n,
{
    if n > 0 {
        lemma_none_shared(rows, homes, n - 1);
        lemma_none_shared_row(rows[n - 1], homes, n - 1, rows[n - 1].len() as int);
    }
}

proof fn lemma_none_shared_row(row: Seq<u64>, homes: Seq<Option<usize>>, d: int, n: int)
    requires
        0 <= n <= row.len(),
        forall|c: int| #[trigger] owners(homes, c, homes.len() as int) <= 1,
    ensures
        row_sum(row, Pick::Shared, homes, d, n) == 0,
    decreases n,
{
    if n > 0 {
        lemma_none_shared_row(row, homes, d, n - 1);
        assert(owners(homes, (n - 1) / 4, homes.len() as int) <= 1);
    }
}

/// The domains that have a home are those that wrote; they have no more different
/// homes than they are, and as many exactly where no two share one.
pub proof fn law_homes_are_counted_once(homes: Seq<Option<usize>>, n: int)
    requires
        0 <= n <= homes.len(),
    ensures
        settled(homes, n) == homes.take(n).filter(|h: Option<usize>| h is Some).len(),
        0 <= distinct_homes(homes, n) <= settled(homes, n),
        distinct_homes(homes, n) == settled(homes, n) <==> forall|d: int, e: int|
            0 <= d < e < n && homes[d] is Some && homes[e] is Some ==> homes[d] != homes[e],
        n > 0 && settled(homes, n) > 0 ==> distinct_homes(homes, n) > 0,
    decreases n,
{
    reveal(Seq::filter);
    if n > 0 {
        law_homes_are_counted_once(homes, n - 1);
        assert(homes.take(n).drop_last() =~= homes.take(n - 1));
        if homes[n - 1] is Some {
            let c = homes[n - 1]->0 as int;
            lemma_owner_counts(homes, c, n - 1);
            if owners(homes, c, n - 1) == 0 {
                let mine = homes[n - 1];
                assert forall|d: int| 0 <= d < n - 1 implies mine != #[trigger] homes[d] by {
                    if homes[d] == mine {
                        assert(homes[d] == Some(c as usize));
                    }
                }
            } else {
                let d = choose|d: int|
                    0 <= d < n - 1 && homes[d] is Some && #[trigger] homes[d]->0 == c;
                assert(homes[d] == homes[n - 1]);
                lemma_one_settled(homes, n - 1, d);
            }
        }
    }
}

proof fn lemma_one_settled(homes: Seq<Option<usize>>, n: int, d: int)
    requires
        0 <= d < n <= homes.len(),
        homes[d] is Some,
    ensures
        settled(homes, n) > 0,
    decreases n,
{
    lemma_settled_positive(homes, n - 1);
    if d < n - 1 {
        lemma_one_settled(homes, n - 1, d);
    }
}

proof fn lemma_settled_positive(homes: Seq<Option<usize>>, n: int)
    ensures
        settled(homes, n) >= 0,
    decreases n,
{
    if n > 0 {
        lemma_settled_positive(homes, n - 1);
    }
}

/// A visit goes on while the domain stays the same, and begins anew when another
/// comes.
pub proof fn law_visits_begin_with_another_domain(was: int, now: int, step: int)
    ensures
        step_in(was, was, step) == step,
        was != now ==> step_in(was, now, step) == 0,
        step_in(was, now, step_in(was, now, step)) == step_in(was, now, step),
{
}

/// A write is counted under its own domain, class and stretch and under no other.
pub proof fn law_a_write_is_counted_once(d: int, c: int, b: int, e: int, k: int, a: int)
    ensures
        counts_more((d, c, b), (d, c, b)) == 1,
        (d, c, b) != (e, k, a) ==> counts_more((d, c, b), (e, k, a)) == 0,
{
}

} // verus!
