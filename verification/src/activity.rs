//! Tables of how often things were active.

use vstd::prelude::*;

use crate::load::lemma_total_update;
use crate::load::total;

verus! {

/// How often something occurs in a list.
pub open spec fn times(v: Seq<usize>, x: int) -> int
    decreases v.len(),
{
    if v.len() == 0 {
        0
    } else {
        times(v.drop_last(), x) + if v.last() == x {
            1int
        } else {
            0
        }
    }
}

/// What a column of a table comes to.
spec fn column(rows: Seq<Vec<u64>>, c: int) -> int
    decreases rows.len(),
{
    if rows.len() == 0 {
        0
    } else {
        column(rows.drop_last(), c) + rows.last()@[c]
    }
}

proof fn lemma_column_update(rows: Seq<Vec<u64>>, r: int, row: Vec<u64>, c: int)
    requires
        0 <= r < rows.len(),
    ensures
        column(rows.update(r, row), c) == column(rows, c) - rows[r]@[c] + row@[c],
        0 <= rows[r]@[c] <= column(rows, c),
    decreases rows.len(),
{
    let new = rows.update(r, row);
    lemma_column_positive(rows.drop_last(), c);
    if r == rows.len() - 1 {
        assert(new.drop_last() =~= rows.drop_last());
    } else {
        assert(new.drop_last() =~= rows.drop_last().update(r, row));
        lemma_column_update(rows.drop_last(), r, row, c);
    }
}

proof fn lemma_column_positive(rows: Seq<Vec<u64>>, c: int)
    ensures
        0 <= column(rows, c),
    decreases rows.len(),
{
    if rows.len() > 0 {
        lemma_column_positive(rows.drop_last(), c);
    }
}

proof fn lemma_column_zero(rows: Seq<Vec<u64>>, c: int)
    requires
        forall|r: int| 0 <= r < rows.len() ==> (#[trigger] rows[r])@[c] == 0,
    ensures
        column(rows, c) == 0,
    decreases rows.len(),
{
    if rows.len() > 0 {
        let short = rows.drop_last();
        assert forall|r: int| 0 <= r < short.len() implies (#[trigger] short[r])@[c] == 0 by {
            assert(short[r] == rows[r]);
        }
        lemma_column_zero(short, c);
        assert(rows[rows.len() - 1]@[c] == 0);
    }
}

proof fn lemma_total_zero(v: Seq<u64>)
    requires
        forall|c: int| 0 <= c < v.len() ==> #[trigger] v[c] == 0,
    ensures
        total(v) == 0,
    decreases v.len(),
{
    if v.len() > 0 {
        let short = v.drop_last();
        assert forall|c: int| 0 <= c < short.len() implies #[trigger] short[c] == 0 by {
            assert(short[c] == v[c]);
        }
        lemma_total_zero(short);
        assert(v[v.len() - 1] == 0);
    }
}

/// A row comes to no more than the sums of the columns.
proof fn lemma_row_bound(row: Seq<u64>, pooled: Seq<u64>, rows: Seq<Vec<u64>>, d: int)
    requires
        0 <= d < rows.len(),
        row.len() == pooled.len(),
        forall|c: int| 0 <= c < row.len() ==> #[trigger] row[c] == rows[d]@[c],
        forall|c: int| 0 <= c < row.len() ==> #[trigger] pooled[c] == column(rows, c),
    ensures
        total(row) <= total(pooled),
    decreases row.len(),
{
    if row.len() > 0 {
        let r = row.drop_last();
        let p = pooled.drop_last();
        assert forall|c: int| 0 <= c < r.len() implies #[trigger] r[c] == rows[d]@[c] by {
            assert(r[c] == row[c]);
        }
        assert forall|c: int| 0 <= c < r.len() implies #[trigger] p[c] == column(rows, c) by {
            assert(p[c] == pooled[c]);
        }
        lemma_row_bound(r, p, rows, d);
        let c = row.len() - 1;
        lemma_column_update(rows, d, rows[d], c);
        assert(row[c] == rows[d]@[c]);
        assert(pooled[c] == column(rows, c));
    }
}

/// How often each column was active, row by row.
pub struct Activity {
    rows: Vec<Vec<u64>>,
    pooled: Vec<u64>,
    noted: u64,
}

impl Activity {
    /// How often a column was active in a row.
    pub closed spec fn at(&self, d: int, c: int) -> int {
        self.rows@[d]@[c] as int
    }

    /// How many rows there are.
    pub closed spec fn height(&self) -> int {
        self.rows@.len() as int
    }

    /// How many columns there are.
    pub closed spec fn width(&self) -> int {
        self.pooled@.len() as int
    }

    /// How many columns were counted, each as often as it was active.
    pub closed spec fn load(&self) -> int {
        self.noted as int
    }

    /// How often a column was active in the first `n` rows.
    pub open spec fn wins_upto(&self, n: int, c: int) -> int
        decreases n,
    {
        if n <= 0 {
            0
        } else {
            self.wins_upto(n - 1, c) + self.at(n - 1, c)
        }
    }

    /// How often a column was active in any row.
    pub open spec fn wins(&self, c: int) -> int {
        self.wins_upto(self.height(), c)
    }

    /// The rows that come to a column are those of the table.
    proof fn lemma_wins(&self, n: int, c: int)
        requires
            0 <= n <= self.rows@.len(),
        ensures
            self.wins_upto(n, c) == column(self.rows@.take(n), c),
        decreases n,
    {
        if n > 0 {
            self.lemma_wins(n - 1, c);
            assert(self.rows@.take(n).drop_last() =~= self.rows@.take(n - 1));
        }
    }

    /// Every row has all columns, and the sums are kept.
    pub closed spec fn wf(&self) -> bool {
        &&& forall|d: int|
            0 <= d < self.rows@.len() ==> (#[trigger] self.rows@[d])@.len() == self.pooled@.len()
        &&& forall|c: int|
            0 <= c < self.pooled@.len() ==> #[trigger] self.pooled@[c] == column(self.rows@, c)
        &&& total(self.pooled@) == self.noted
    }

    /// Nothing was active yet.
    pub fn new(rows: usize, width: usize) -> (a: Self)
        ensures
            a.wf(),
            a.height() == rows,
            a.width() == width,
            a.load() == 0,
            forall|d: int, c: int|
                0 <= d < rows && 0 <= c < width ==> #[trigger] a.at(d, c) == 0,
    {
        let mut cells: Vec<Vec<u64>> = Vec::new();
        let mut d: usize = 0;
        while d < rows
            invariant
                d <= rows,
                cells@.len() == d,
                forall|e: int| 0 <= e < d ==> (#[trigger] cells@[e])@.len() == width,
                forall|e: int, c: int|
                    0 <= e < d && 0 <= c < width ==> (#[trigger] cells@[e]@[c]) == 0,
            decreases rows - d,
        {
            cells.push(vec![0u64; width]);
            d = d + 1;
        }
        let pooled: Vec<u64> = vec![0u64; width];
        proof {
            assert forall|c: int| 0 <= c < width implies #[trigger] pooled@[c] == column(
                cells@,
                c,
            ) by {
                assert forall|e: int| 0 <= e < cells@.len() implies (#[trigger] cells@[e])@[c]
                    == 0 by {
                    assert(cells@[e]@[c] == 0);
                }
                lemma_column_zero(cells@, c);
            }
            lemma_total_zero(pooled@);
        }
        Activity { rows: cells, pooled, noted: 0 }
    }

    /// Counts the active columns of one step in a row.
    pub fn note(&mut self, d: usize, active: &[usize])
        requires
            old(self).wf(),
            d < old(self).height(),
            forall|k: int|
                0 <= k < active@.len() ==> (#[trigger] active@[k]) < old(self).width(),
            old(self).load() + active@.len() <= u64::MAX,
        ensures
            final(self).wf(),
            final(self).height() == old(self).height(),
            final(self).width() == old(self).width(),
            final(self).load() == old(self).load() + active@.len(),
            forall|e: int, c: int|
                0 <= e < old(self).height() && 0 <= c < old(self).width() ==> #[trigger] final(self).at(e, c) == old(self).at(e, c) + if e == d {
                    times(active@, c)
                } else {
                    0
                },
    {
        let mut k: usize = 0;
        while k < active.len()
            invariant
                k <= active@.len(),
                self.wf(),
                self.height() == old(self).height(),
                self.width() == old(self).width(),
                d < self.height(),
                forall|k: int|
                    0 <= k < active@.len() ==> (#[trigger] active@[k]) < self.width(),
                self.load() == old(self).load() + k,
                old(self).load() + active@.len() <= u64::MAX,
                forall|e: int, c: int|
                    0 <= e < self.height() && 0 <= c < self.width() ==> #[trigger] self.at(e, c)
                        == old(self).at(e, c) + if e == d {
                        times(active@.take(k as int), c)
                    } else {
                        0
                    },
            decreases active@.len() - k,
        {
            let ghost before = *self;
            assert(active@[k as int] < self.width());
            let i: usize = active[k];
            self.count(d, i);
            proof {
                assert(active@.take(k + 1).drop_last() =~= active@.take(k as int));
                assert forall|e: int, c: int|
                    0 <= e < self.height() && 0 <= c < self.width() implies #[trigger] self.at(
                    e,
                    c,
                ) == old(self).at(e, c) + if e == d {
                    times(active@.take(k + 1), c)
                } else {
                    0
                } by {
                    assert(before.at(e, c) == old(self).at(e, c) + if e == d {
                        times(active@.take(k as int), c)
                    } else {
                        0
                    });
                }
            }
            k = k + 1;
        }
        proof {
            assert(active@.take(k as int) =~= active@);
        }
    }

    /// Counts one active column.
    fn count(&mut self, d: usize, i: usize)
        requires
            old(self).wf(),
            d < old(self).height(),
            i < old(self).width(),
            old(self).load() < u64::MAX,
        ensures
            final(self).wf(),
            final(self).height() == old(self).height(),
            final(self).width() == old(self).width(),
            final(self).load() == old(self).load() + 1,
            forall|e: int, c: int|
                0 <= e < old(self).height() && 0 <= c < old(self).width() ==> #[trigger] final(self).at(e, c) == old(self).at(e, c) + if e == d && c == i {
                    1int
                } else {
                    0
                },
    {
        let ghost rows = self.rows@;
        let ghost pooled = self.pooled@;
        let ghost row = rows[d as int]@;
        assert(rows[d as int]@.len() == pooled.len());
        assert(pooled[i as int] == column(rows, i as int));
        proof {
            lemma_total_update(pooled, i as int, 0);
            lemma_column_update(rows, d as int, rows[d as int], i as int);
        }
        let was: u64 = self.rows[d][i];
        self.rows[d].set(i, was + 1);
        let sum: u64 = self.pooled[i];
        self.pooled.set(i, sum + 1);
        self.noted = self.noted + 1;
        proof {
            let new = self.rows@[d as int];
            assert(new@ =~= row.update(i as int, (was + 1) as u64));
            assert(self.rows@ =~= rows.update(d as int, new));
            lemma_total_update(pooled, i as int, (sum + 1) as u64);
            assert forall|c: int| 0 <= c < self.pooled@.len() implies #[trigger] self.pooled@[c]
                == column(self.rows@, c) by {
                lemma_column_update(rows, d as int, new, c);
                assert(pooled[c] == column(rows, c));
            }
        }
    }

    /// How many rows there are.
    pub fn rows(&self) -> (n: usize)
        requires
            self.wf(),
        ensures
            n == self.height(),
    {
        self.rows.len()
    }

    /// How often each column was active in a row; no more than was counted.
    pub fn row(&self, d: usize) -> (r: &[u64])
        requires
            self.wf(),
            d < self.height(),
        ensures
            r@.len() == self.width(),
            forall|c: int| 0 <= c < self.width() ==> #[trigger] r@[c] == self.at(d as int, c),
            total(r@) <= self.load() <= u64::MAX,
    {
        proof {
            lemma_row_bound(self.rows@[d as int]@, self.pooled@, self.rows@, d as int);
        }
        assert(self.rows@[d as int]@.len() == self.pooled@.len());
        self.rows[d].as_slice()
    }

    /// How often each column was active in any row.
    pub fn pooled(&self) -> (r: &[u64])
        requires
            self.wf(),
        ensures
            r@.len() == self.width(),
            forall|c: int| 0 <= c < self.width() ==> #[trigger] r@[c] == self.wins(c),
            total(r@) == self.load(),
            total(r@) <= u64::MAX,
    {
        proof {
            assert forall|c: int| 0 <= c < self.width() implies #[trigger] self.pooled@[c]
                == self.wins(c) by {
                self.lemma_wins(self.height(), c);
                assert(self.rows@.take(self.height()) =~= self.rows@);
            }
        }
        self.pooled.as_slice()
    }
}

/// Something occurs as often as it is listed.
pub proof fn law_times_are_counted(v: Seq<usize>, x: usize)
    ensures
        times(v, x as int) == v.filter(|y: usize| y == x).len(),
    decreases v.len(),
{
    reveal(Seq::filter);
    if v.len() > 0 {
        law_times_are_counted(v.drop_last(), x);
    }
}

} // verus!
