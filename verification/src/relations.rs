//! The tuple store: a flat buffer of integers read as `size` rows of `arity`
//! columns, with element access, row comparison and an in-place sort.

use crate::order::{
    agree, lemma_lex_sign_flip, lemma_lex_sign_skip, lemma_lex_sign_trans, lemma_lex_sign_zero,
    lex_sign, row_le, rows_sorted, sorted_between,
};
use vstd::prelude::*;
use vstd::std_specs::cmp::PartialEqSpecImpl;

verus! {

/// A table of `size` tuples, each of `arity` signed 32-bit columns, stored
/// row after row in `data`.
#[derive(Debug)]
pub struct Relation {
    pub data: Vec<i32>,
    pub size: usize,
    pub arity: usize,
}

impl PartialEq for Relation {
    /// Two relations are equal where `size`, `arity` and `data` are.
    fn eq(&self, other: &Self) -> (same: bool) {
        if self.size != other.size || self.arity != other.arity || self.data.len()
            != other.data.len() {
            return false;
        }
        let mut i: usize = 0;
        while i < self.data.len()
            invariant
                self.data.len() == other.data.len(),
                i <= self.data.len(),
                forall|k: int| 0 <= k < i ==> self.data@[k] == other.data@[k],
            decreases self.data.len() - i,
        {
            if self.data[i] != other.data[i] {
                return false;
            }
            i += 1;
        }
        proof {
            assert(self.data@ =~= other.data@);
        }
        true
    }
}

impl PartialEqSpecImpl for Relation {
    open spec fn obeys_eq_spec() -> bool {
        true
    }

    open spec fn eq_spec(&self, other: &Self) -> bool {
        self.size == other.size && self.arity == other.arity && self.data@ == other.data@
    }
}

/// What a relation holds, as plain values: the model that the byte format
/// is stated over.
pub ghost struct Table {
    pub size: usize,
    pub arity: usize,
    pub data: Seq<i32>,
}

impl View for Relation {
    type V = Table;

    open spec fn view(&self) -> Table {
        Table { size: self.size, arity: self.arity, data: self.data@ }
    }
}

/// Row `i` of a flat buffer whose rows are `arity` columns wide.
pub open spec fn table_row(data: Seq<i32>, arity: int, i: int) -> Seq<i32> {
    data.subrange(i * arity, i * arity + arity)
}

/// The rows of a flat buffer of `size` rows, each `arity` columns wide.
pub open spec fn table_rows(data: Seq<i32>, size: int, arity: int) -> Seq<Seq<i32>> {
    Seq::new(size as nat, |i: int| table_row(data, arity, i))
}

/// `after` holds the rows of `before`, those at the indices `from..to` in
/// some other order and the rest in place.
pub open spec fn permuted_between(
    before: Seq<Seq<i32>>,
    after: Seq<Seq<i32>>,
    from: int,
    to: int,
) -> bool {
    &&& before.len() == after.len()
    &&& forall|k: int| 0 <= k < before.len() && !(from <= k < to) ==> before[k] == after[k]
    &&& before.subrange(from, to).to_multiset() == after.subrange(from, to).to_multiset()
}

/// Where row `i` of a `size` by `arity` table lies in the flat buffer.
pub proof fn lemma_row_in_bounds(size: int, arity: int, i: int)
    requires
        0 <= i < size,
        0 <= arity,
    ensures
        0 <= i * arity <= i * arity + arity <= size * arity,
{
    assert(0 <= i * arity && i * arity + arity <= size * arity) by (nonlinear_arith)
        requires
            0 <= i < size,
            0 <= arity,
    ;
}

/// Where cell `(i, j)` of a `size` by `arity` table lies in the flat buffer.
pub proof fn lemma_cell_in_bounds(size: int, arity: int, i: int, j: int)
    requires
        0 <= i < size,
        0 <= j < arity,
    ensures
        0 <= i * arity <= i * arity + j < i * arity + arity <= size * arity,
{
    lemma_row_in_bounds(size, arity, i);
}

/// Two different rows share no cell of the flat buffer.
pub proof fn lemma_rows_apart(arity: int, r: int, i: int)
    requires
        0 <= r < i,
        0 <= arity,
    ensures
        r * arity + arity <= i * arity,
{
    assert(r * arity + arity <= i * arity) by (nonlinear_arith)
        requires
            0 <= r < i,
            0 <= arity,
    ;
}

/// Writing one cell of the flat buffer changes that column of that row, and
/// no other row.
pub proof fn lemma_rows_after_write(
    data: Seq<i32>,
    size: int,
    arity: int,
    i: int,
    j: int,
    x: i32,
)
    requires
        data.len() == size * arity,
        0 <= i < size,
        0 <= j < arity,
    ensures
        table_rows(data.update(i * arity + j, x), size, arity) == table_rows(
            data,
            size,
            arity,
        ).update(i, table_row(data, arity, i).update(j, x)),
{
    let written = data.update(i * arity + j, x);
    let before = table_rows(data, size, arity);
    let after = table_rows(written, size, arity);
    let expected = before.update(i, table_row(data, arity, i).update(j, x));
    lemma_cell_in_bounds(size, arity, i, j);
    assert forall|r: int| 0 <= r < size implies after[r] == expected[r] by {
        lemma_row_in_bounds(size, arity, r);
        if r < i {
            lemma_rows_apart(arity, r, i);
        } else if r > i {
            lemma_rows_apart(arity, i, r);
        }
        assert(after[r] =~= expected[r]);
    }
    assert(after =~= expected);
}

/// Exchanging two rows inside `from..to` permutes that range.
pub proof fn lemma_exchange_permutes(rows: Seq<Seq<i32>>, a: int, b: int, from: int, to: int)
    requires
        0 <= from <= a < to <= rows.len(),
        from <= b < to,
    ensures
        permuted_between(rows, rows.update(a, rows[b]).update(b, rows[a]), from, to),
{
    broadcast use {
        vstd::seq_lib::to_multiset_update,
        vstd::multiset::group_multiset_axioms,
        vstd::multiset::group_multiset_properties,
    };

    let after = rows.update(a, rows[b]).update(b, rows[a]);
    let part = rows.subrange(from, to);
    let step = part.update(a - from, rows[b]);
    assert(after.subrange(from, to) =~= step.update(b - from, rows[a]));
    assert(part[a - from] == rows[a]);
    assert(part[b - from] == rows[b]);
    part.to_multiset_ensures();
    step.to_multiset_ensures();
    assert(step.update(b - from, rows[a]).to_multiset() =~= part.to_multiset());
}

/// A permutation of a range is one of any range that encloses it.
pub proof fn lemma_permuted_widen(
    before: Seq<Seq<i32>>,
    after: Seq<Seq<i32>>,
    from: int,
    to: int,
    wide_from: int,
    wide_to: int,
)
    requires
        0 <= wide_from <= from <= to <= wide_to <= before.len(),
        permuted_between(before, after, from, to),
    ensures
        permuted_between(before, after, wide_from, wide_to),
{
    broadcast use vstd::seq_lib::lemma_multiset_commutative;

    let head = before.subrange(wide_from, from);
    let tail = before.subrange(to, wide_to);
    assert(head =~= after.subrange(wide_from, from));
    assert(tail =~= after.subrange(to, wide_to));
    assert(before.subrange(wide_from, wide_to) =~= (head + before.subrange(from, to)) + tail);
    assert(after.subrange(wide_from, wide_to) =~= (head + after.subrange(from, to)) + tail);
}

/// Each row of a permuted range stood somewhere in that range before.
pub proof fn lemma_permuted_member(
    before: Seq<Seq<i32>>,
    after: Seq<Seq<i32>>,
    from: int,
    to: int,
    k: int,
) -> (origin: int)
    requires
        0 <= from <= k < to <= before.len(),
        permuted_between(before, after, from, to),
    ensures
        from <= origin < to,
        before[origin] == after[k],
{
    broadcast use vstd::seq_lib::to_multiset_contains;

    let old_part = before.subrange(from, to);
    let new_part = after.subrange(from, to);
    assert(new_part[k - from] == after[k]);
    assert(new_part.contains(after[k]));
    assert(new_part.to_multiset().count(after[k]) > 0);
    assert(old_part.to_multiset().count(after[k]) > 0);
    assert(old_part.contains(after[k]));
    let at = choose|at: int| 0 <= at < old_part.len() && old_part[at] == after[k];
    from + at
}

/// Every row at an index in `a_from..a_to` sorts no later than every row at
/// an index in `b_from..b_to`.
pub open spec fn regions_ordered(
    rows: Seq<Seq<i32>>,
    a_from: int,
    a_to: int,
    b_from: int,
    b_to: int,
    width: int,
) -> bool {
    forall|i: int, j: int|
        a_from <= i < a_to && b_from <= j < b_to ==> row_le(
            #[trigger] rows[i],
            #[trigger] rows[j],
            width,
        )
}

/// Two regions that are ordered stay so when a range that lies inside one
/// of them, or outside both, is permuted.
pub proof fn lemma_regions_ordered_permuted(
    before: Seq<Seq<i32>>,
    after: Seq<Seq<i32>>,
    from: int,
    to: int,
    a_from: int,
    a_to: int,
    b_from: int,
    b_to: int,
    width: int,
)
    requires
        0 <= from <= to <= before.len(),
        0 <= a_from && a_to <= before.len(),
        0 <= b_from && b_to <= before.len(),
        permuted_between(before, after, from, to),
        regions_ordered(before, a_from, a_to, b_from, b_to, width),
        (a_from <= from && to <= a_to) || to <= a_from || a_to <= from,
        (b_from <= from && to <= b_to) || to <= b_from || b_to <= from,
    ensures
        regions_ordered(after, a_from, a_to, b_from, b_to, width),
{
    assert forall|i: int, j: int| a_from <= i < a_to && b_from <= j < b_to implies row_le(
        #[trigger] after[i],
        #[trigger] after[j],
        width,
    ) by {
        let oi = if from <= i < to {
            lemma_permuted_member(before, after, from, to, i)
        } else {
            i
        };
        let oj = if from <= j < to {
            lemma_permuted_member(before, after, from, to, j)
        } else {
            j
        };
        assert(row_le(before[oi], before[oj], width));
    }
}

/// Rows of which each sorts no later than its successor are in order from
/// any one to any later one.
pub proof fn lemma_adjacent_chain(rows: Seq<Seq<i32>>, width: int, i: int, j: int)
    requires
        0 <= i <= j < rows.len(),
        forall|n: int| 0 <= n && n + 1 < rows.len() ==> row_le(#[trigger] rows[n], rows[n + 1], width),
    ensures
        row_le(rows[i], rows[j], width),
    decreases j - i,
{
    if i == j {
        lemma_lex_sign_zero(rows[i], rows[i], 0, width);
    } else {
        lemma_adjacent_chain(rows, width, i, j - 1);
        assert(row_le(rows[j - 1], rows[j - 1 + 1], width));
        lemma_lex_sign_trans(rows[i], rows[j - 1], rows[j], 0, width);
    }
}

/// The sort invariant, by neighbours: a relation is sorted exactly where
/// comparing any tuple with its successor gives a result that is not
/// negative.
pub proof fn lemma_sorted_iff_adjacent(relation: &Relation)
    ensures
        relation.sorted() <==> forall|i: int|
            0 <= i && i + 1 < relation.size ==> #[trigger] relation.compare_spec(i, i + 1) >= 0,
{
    let rows = relation.rows();
    let width = relation.arity as int;
    if relation.sorted() {
        assert forall|i: int| 0 <= i && i + 1 < relation.size implies #[trigger] relation.compare_spec(
            i,
            i + 1,
        ) >= 0 by {
            assert(row_le(rows[i], rows[i + 1], width));
            lemma_lex_sign_flip(rows[i], rows[i + 1], 0, width);
        }
    }
    if forall|i: int|
        0 <= i && i + 1 < relation.size ==> #[trigger] relation.compare_spec(i, i + 1) >= 0 {
        assert forall|n: int| 0 <= n && n + 1 < rows.len() implies row_le(
            #[trigger] rows[n],
            rows[n + 1],
            width,
        ) by {
            assert(relation.compare_spec(n, n + 1) >= 0);
            lemma_lex_sign_flip(rows[n], rows[n + 1], 0, width);
        }
        assert forall|i: int, j: int| 0 <= i <= j < rows.len() implies row_le(
            #[trigger] rows[i],
            #[trigger] rows[j],
            width,
        ) by {
            lemma_adjacent_chain(rows, width, i, j);
        }
    }
}

impl Relation {
    /// The buffer holds exactly `size` rows of `arity` columns.
    pub open spec fn wf(&self) -> bool {
        self.data.len() == self.size * self.arity
    }

    /// The tuples, in stored order.
    pub open spec fn rows(&self) -> Seq<Seq<i32>> {
        table_rows(self.data@, self.size as int, self.arity as int)
    }

    /// The tuples are in ascending lexicographic order.
    pub open spec fn sorted(&self) -> bool {
        rows_sorted(self.rows(), self.arity as int)
    }

    /// What `compare` gives for tuples `a` and `b`: the sign of `b` minus
    /// `a` at the first column where they differ, zero where they are equal.
    pub open spec fn compare_spec(&self, a: int, b: int) -> int {
        lex_sign(self.rows()[b], self.rows()[a], 0, self.arity as int)
    }

    /// The value in column `j` of tuple `i`.
    pub fn get(&self, i: usize, j: usize) -> (x: i32)
        requires
            self.wf(),
            i < self.size,
            j < self.arity,
        ensures
            x == self.rows()[i as int][j as int],
    {
        proof {
            lemma_cell_in_bounds(self.size as int, self.arity as int, i as int, j as int);
        }
        self.data[i * self.arity + j]
    }

    /// Stores `x` in column `j` of tuple `i`.
    fn set(&mut self, i: usize, j: usize, x: i32)
        requires
            old(self).wf(),
            i < old(self).size,
            j < old(self).arity,
        ensures
            final(self).wf(),
            final(self).size == old(self).size,
            final(self).arity == old(self).arity,
            final(self).rows() == old(self).rows().update(
                i as int,
                old(self).rows()[i as int].update(j as int, x),
            ),
    {
        proof {
            lemma_cell_in_bounds(self.size as int, self.arity as int, i as int, j as int);
            lemma_rows_after_write(
                self.data@,
                self.size as int,
                self.arity as int,
                i as int,
                j as int,
                x,
            );
        }
        self.data[i * self.arity + j] = x;
    }

    /// Exchanges tuples `a` and `b`, column by column.
    fn swap(&mut self, a: usize, b: usize)
        requires
            old(self).wf(),
            a < old(self).size,
            b < old(self).size,
        ensures
            final(self).wf(),
            final(self).size == old(self).size,
            final(self).arity == old(self).arity,
            final(self).rows() == old(self).rows().update(a as int, old(self).rows()[b as int]).update(
                b as int,
                old(self).rows()[a as int],
            ),
    {
        let ghost before = self.rows();
        let ghost width = self.arity as int;
        if a == b {
            assert(before.update(a as int, before[b as int]).update(b as int, before[a as int])
                =~= before);
            return ;
        }
        proof {
            lemma_row_in_bounds(self.size as int, width, a as int);
            lemma_row_in_bounds(self.size as int, width, b as int);
        }
        let mut j: usize = 0;
        while j < self.arity
            invariant
                self.wf(),
                self.size == old(self).size,
                self.arity == old(self).arity,
                width == self.arity,
                before == old(self).rows(),
                a < self.size,
                b < self.size,
                a != b,
                j <= self.arity,
                self.rows().len() == before.len(),
                forall|r: int| 0 <= r < before.len() && r != a && r != b ==> self.rows()[r] == before[r],
                before[a as int].len() == width,
                before[b as int].len() == width,
                self.rows()[a as int].len() == width,
                self.rows()[b as int].len() == width,
                forall|c: int|
                    0 <= c < width ==> self.rows()[a as int][c] == if c < j {
                        before[b as int][c]
                    } else {
                        before[a as int][c]
                    },
                forall|c: int|
                    0 <= c < width ==> self.rows()[b as int][c] == if c < j {
                        before[a as int][c]
                    } else {
                        before[b as int][c]
                    },
            decreases self.arity - j,
        {
            let temp = self.get(a, j);
            let other = self.get(b, j);
            self.set(a, j, other);
            self.set(b, j, temp);
            j += 1;
        }
        proof {
            lemma_row_in_bounds(self.size as int, width, a as int);
            lemma_row_in_bounds(self.size as int, width, b as int);
            let expected = before.update(a as int, before[b as int]).update(
                b as int,
                before[a as int],
            );
            assert(self.rows()[a as int] =~= before[b as int]);
            assert(self.rows()[b as int] =~= before[a as int]);
            assert(self.rows() =~= expected);
        }
    }

    /// Compares tuple `a` with tuple `b` over all columns, leftmost first:
    /// the sign of `b` minus `a` at the first column where they differ, and
    /// zero where they are equal. A result that is not negative says that
    /// tuple `a` sorts no later than tuple `b`.
    pub fn compare(&self, a: usize, b: usize) -> (sign: i32)
        requires
            self.wf(),
            a < self.size,
            b < self.size,
        ensures
            sign == self.compare_spec(a as int, b as int),
    {
        let ghost ra = self.rows()[a as int];
        let ghost rb = self.rows()[b as int];
        let mut j: usize = 0;
        while j < self.arity
            invariant
                self.wf(),
                a < self.size,
                b < self.size,
                j <= self.arity,
                ra == self.rows()[a as int],
                rb == self.rows()[b as int],
                agree(rb, ra, 0, j as int),
            decreases self.arity - j,
        {
            let left = self.get(a, j);
            let right = self.get(b, j);
            if left != right {
                proof {
                    lemma_lex_sign_skip(rb, ra, 0, j as int, self.arity as int);
                }
                return if right > left {
                    1
                } else {
                    -1
                };
            }
            j += 1;
        }
        proof {
            lemma_lex_sign_zero(rb, ra, 0, self.arity as int);
        }
        0
    }

    /// Partitions the tuples `low..=high` around the tuple that stands at
    /// `high`: every tuple that sorts no later than it is moved before it,
    /// the others after it. Returns the index at which it then stands.
    fn quicksort_partition(&mut self, low: usize, high: usize) -> (p: usize)
        requires
            old(self).wf(),
            low <= high < old(self).size,
        ensures
            final(self).wf(),
            final(self).size == old(self).size,
            final(self).arity == old(self).arity,
            low <= p <= high,
            permuted_between(old(self).rows(), final(self).rows(), low as int, high + 1),
            final(self).rows()[p as int] == old(self).rows()[high as int],
            forall|k: int|
                low <= k <= p ==> row_le(
                    #[trigger] final(self).rows()[k],
                    final(self).rows()[p as int],
                    final(self).arity as int,
                ),
            forall|k: int|
                p < k <= high ==> lex_sign(
                    final(self).rows()[p as int],
                    #[trigger] final(self).rows()[k],
                    0,
                    final(self).arity as int,
                ) < 0,
    {
        let ghost before = self.rows();
        let ghost width = self.arity as int;
        let ghost pivot = before[high as int];
        let mut i: usize = low;
        let mut x: usize = low;
        proof {
            assert(before.subrange(low as int, high + 1) =~= before.subrange(low as int, high + 1));
        }
        while x < high
            invariant
                self.wf(),
                self.size == old(self).size,
                self.arity == old(self).arity,
                width == self.arity,
                before == old(self).rows(),
                low <= i <= x <= high < self.size,
                permuted_between(before, self.rows(), low as int, high + 1),
                pivot == before[high as int],
                self.rows()[high as int] == pivot,
                forall|k: int| low <= k < i ==> row_le(#[trigger] self.rows()[k], pivot, width),
                forall|k: int| i <= k < x ==> lex_sign(pivot, #[trigger] self.rows()[k], 0, width) < 0,
            decreases high - x,
        {
            let ghost current = self.rows();
            if self.compare(x, high) >= 0 {
                self.swap(i, x);
                proof {
                    lemma_exchange_permutes(current, i as int, x as int, low as int, high + 1);
                    lemma_lex_sign_flip(pivot, current[x as int], 0, width);
                }
                i += 1;
            }
            x += 1;
        }
        let ghost current = self.rows();
        self.swap(i, high);
        proof {
            lemma_exchange_permutes(current, i as int, high as int, low as int, high + 1);
            lemma_lex_sign_zero(pivot, pivot, 0, width);
        }
        i
    }

    /// Sorts the tuples `low..=high` in place, ascending. The stack grows
    /// with the logarithm of the range only: after each partition the
    /// function calls itself on the shorter side and goes on with the
    /// longer one.
    fn quicksort(&mut self, low: usize, high: usize)
        requires
            old(self).wf(),
            low < high ==> high < old(self).size,
        ensures
            final(self).wf(),
            final(self).size == old(self).size,
            final(self).arity == old(self).arity,
            low >= high ==> final(self).rows() == old(self).rows(),
            low < high ==> permuted_between(
                old(self).rows(),
                final(self).rows(),
                low as int,
                high + 1,
            ),
            low < high ==> sorted_between(
                final(self).rows(),
                low as int,
                high + 1,
                final(self).arity as int,
            ),
        decreases high - low,
    {
        if low >= high {
            return ;
        }
        let ghost before = self.rows();
        let ghost width = self.arity as int;
        let mut lo: usize = low;
        let mut end: usize = high + 1;
        while end - lo >= 2
            invariant
                self.wf(),
                self.size == old(self).size,
                self.arity == old(self).arity,
                width == self.arity,
                before == old(self).rows(),
                low <= lo <= end <= high + 1,
                high < self.size,
                permuted_between(before, self.rows(), low as int, high + 1),
                sorted_between(self.rows(), low as int, lo as int, width),
                sorted_between(self.rows(), end as int, high + 1, width),
                regions_ordered(self.rows(), low as int, lo as int, lo as int, high + 1, width),
                regions_ordered(self.rows(), low as int, end as int, end as int, high + 1, width),
            decreases end - lo,
        {
            let ghost entry = self.rows();
            let p = self.quicksort_partition(lo, end - 1);
            let ghost parted = self.rows();
            proof {
                lemma_permuted_widen(entry, parted, lo as int, end as int, low as int, high + 1);
                lemma_regions_ordered_permuted(
                    entry,
                    parted,
                    lo as int,
                    end as int,
                    low as int,
                    lo as int,
                    lo as int,
                    high + 1,
                    width,
                );
                lemma_regions_ordered_permuted(
                    entry,
                    parted,
                    lo as int,
                    end as int,
                    low as int,
                    end as int,
                    end as int,
                    high + 1,
                    width,
                );
                assert(regions_ordered(parted, lo as int, p + 1, p as int, end as int, width)) by {
                    assert forall|i: int, j: int| lo <= i < p + 1 && p <= j < end implies row_le(
                        #[trigger] parted[i],
                        #[trigger] parted[j],
                        width,
                    ) by {
                        if j > p {
                            lemma_lex_sign_trans(parted[i], parted[p as int], parted[j], 0, width);
                        }
                    }
                }
            }
            if p - lo < end - 1 - p {
                if p > lo {
                    self.quicksort(lo, p - 1);
                }
                proof {
                    let done = self.rows();
                    if lo < p - 1 {
                        lemma_permuted_widen(parted, done, lo as int, p as int, low as int, high + 1);
                        lemma_regions_ordered_permuted(parted, done, lo as int, p as int, low as int, lo as int, lo as int, high + 1, width);
                        lemma_regions_ordered_permuted(parted, done, lo as int, p as int, low as int, end as int, end as int, high + 1, width);
                        lemma_regions_ordered_permuted(parted, done, lo as int, p as int, lo as int, p + 1, p as int, end as int, width);
                    }
                    lemma_lex_sign_zero(done[lo as int], done[lo as int], 0, width);
                    assert(sorted_between(done, low as int, p + 1, width));
                    assert(regions_ordered(done, low as int, p + 1, p + 1, high + 1, width));
                }
                lo = p + 1;
            } else {
                if p + 1 < end - 1 {
                    self.quicksort(p + 1, end - 1);
                }
                proof {
                    let done = self.rows();
                    if p + 1 < end - 1 {
                        lemma_permuted_widen(parted, done, p + 1, end as int, low as int, high + 1);
                        lemma_regions_ordered_permuted(parted, done, p + 1, end as int, low as int, lo as int, lo as int, high + 1, width);
                        lemma_regions_ordered_permuted(parted, done, p + 1, end as int, low as int, end as int, end as int, high + 1, width);
                        lemma_regions_ordered_permuted(parted, done, p + 1, end as int, lo as int, p + 1, p as int, end as int, width);
                    }
                    lemma_lex_sign_zero(done[end - 1], done[end - 1], 0, width);
                    assert(sorted_between(done, p as int, high + 1, width));
                    assert(regions_ordered(done, low as int, p as int, p as int, high + 1, width));
                }
                end = p;
            }
        }
        proof {
            let done = self.rows();
            assert forall|i: int, j: int| low <= i <= j < high + 1 implies row_le(
                #[trigger] done[i],
                #[trigger] done[j],
                width,
            ) by {
                if i == j {
                    lemma_lex_sign_zero(done[i], done[i], 0, width);
                }
            }
        }
    }

    /// Whether the buffer holds exactly `size` rows of `arity` columns.
    pub fn is_well_formed(&self) -> (ok: bool)
        ensures
            ok == self.wf(),
    {
        match self.size.checked_mul(self.arity) {
            Some(cells) => cells == self.data.len(),
            None => false,
        }
    }

    /// Whether the tuples are in ascending lexicographic order.
    pub fn is_sorted(&self) -> (ok: bool)
        requires
            self.wf(),
        ensures
            ok == self.sorted(),
    {
        if self.size < 2 {
            proof {
                lemma_sorted_iff_adjacent(self);
            }
            return true;
        }
        let mut i: usize = 0;
        while i < self.size - 1
            invariant
                self.wf(),
                2 <= self.size,
                i <= self.size - 1,
                forall|n: int| 0 <= n < i ==> #[trigger] self.compare_spec(n, n + 1) >= 0,
            decreases self.size - i,
        {
            if self.compare(i, i + 1) < 0 {
                proof {
                    lemma_sorted_iff_adjacent(self);
                }
                return false;
            }
            i += 1;
        }
        proof {
            lemma_sorted_iff_adjacent(self);
        }
        true
    }

    /// Puts the tuples in ascending lexicographic order, in place.
    fn sort(&mut self)
        requires
            old(self).wf(),
        ensures
            final(self).wf(),
            final(self).size == old(self).size,
            final(self).arity == old(self).arity,
            final(self).sorted(),
            final(self).rows().to_multiset() == old(self).rows().to_multiset(),
    {
        if self.size == 0 {
            return ;
        }
        let ghost before = self.rows();
        self.quicksort(0, self.size - 1);
        proof {
            let after = self.rows();
            assert(before.subrange(0, before.len() as int) =~= before);
            assert(after.subrange(0, after.len() as int) =~= after);
            if self.size == 1 {
                lemma_lex_sign_zero(after[0], after[0], 0, self.arity as int);
            }
        }
    }
}

/// Builds a relation from `size` tuples of `arity` columns laid out row
/// after row in `data`, and sorts it: the result holds the same tuples in
/// ascending lexicographic order.
pub fn make_sorted(data: Vec<i32>, size: usize, arity: usize) -> (relation: Relation)
    requires
        data.len() == size * arity,
    ensures
        relation.wf(),
        relation.size == size,
        relation.arity == arity,
        relation.sorted(),
        forall|i: int| 0 <= i && i + 1 < size ==> #[trigger] relation.compare_spec(i, i + 1) >= 0,
        relation.rows().to_multiset() == table_rows(data@, size as int, arity as int).to_multiset(),
{
    let mut relation = Relation { data, size, arity };
    relation.sort();
    proof {
        lemma_sorted_iff_adjacent(&relation);
    }
    relation
}

} // verus!
