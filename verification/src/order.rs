//! Lexicographic order on tuples, column 0 most significant.

use vstd::prelude::*;

verus! {

/// The sign of comparing `a` with `b` on the columns `from..to`, leftmost
/// column first: `-1` where `a` sorts before `b`, `1` where it sorts after,
/// `0` where the two agree on every one of those columns.
pub open spec fn lex_sign(a: Seq<i32>, b: Seq<i32>, from: int, to: int) -> int
    decreases to - from,
{
    if from >= to {
        0
    } else if a[from] < b[from] {
        -1
    } else if a[from] > b[from] {
        1
    } else {
        lex_sign(a, b, from + 1, to)
    }
}

/// `a` and `b` hold the same value in each of the columns `from..to`.
pub open spec fn agree(a: Seq<i32>, b: Seq<i32>, from: int, to: int) -> bool {
    forall|c: int| from <= c < to ==> a[c] == b[c]
}

/// `a` sorts no later than `b` on the first `width` columns.
pub open spec fn row_le(a: Seq<i32>, b: Seq<i32>, width: int) -> bool {
    lex_sign(a, b, 0, width) <= 0
}

/// Every row of `rows` at an index in `from..to` sorts no later than each
/// row after it in that range, on the first `width` columns.
pub open spec fn sorted_between(rows: Seq<Seq<i32>>, from: int, to: int, width: int) -> bool {
    forall|i: int, j: int| from <= i <= j < to ==> row_le(#[trigger] rows[i], #[trigger] rows[j], width)
}

/// The whole of `rows` is in ascending lexicographic order.
pub open spec fn rows_sorted(rows: Seq<Seq<i32>>, width: int) -> bool {
    sorted_between(rows, 0, rows.len() as int, width)
}

/// Exchanging the two tuples negates the sign.
pub proof fn lemma_lex_sign_flip(a: Seq<i32>, b: Seq<i32>, from: int, to: int)
    ensures
        lex_sign(b, a, from, to) == -lex_sign(a, b, from, to),
    decreases to - from,
{
    if from < to {
        lemma_lex_sign_flip(a, b, from + 1, to);
    }
}

/// The sign is zero exactly where the tuples agree on the compared columns.
pub proof fn lemma_lex_sign_zero(a: Seq<i32>, b: Seq<i32>, from: int, to: int)
    ensures
        lex_sign(a, b, from, to) == 0 <==> agree(a, b, from, to),
    decreases to - from,
{
    if from < to {
        lemma_lex_sign_zero(a, b, from + 1, to);
        if a[from] == b[from] {
            if agree(a, b, from + 1, to) {
                assert(agree(a, b, from, to));
            }
        }
    }
}

/// Columns on which the tuples agree can be left out at the front.
pub proof fn lemma_lex_sign_skip(a: Seq<i32>, b: Seq<i32>, from: int, mid: int, to: int)
    requires
        from <= mid <= to,
        agree(a, b, from, mid),
    ensures
        lex_sign(a, b, from, to) == lex_sign(a, b, mid, to),
    decreases mid - from,
{
    if from < mid {
        lemma_lex_sign_skip(a, b, from + 1, mid, to);
    }
}

/// The order is transitive, and two steps that end in agreement both agree.
pub proof fn lemma_lex_sign_trans(a: Seq<i32>, b: Seq<i32>, c: Seq<i32>, from: int, to: int)
    requires
        lex_sign(a, b, from, to) <= 0,
        lex_sign(b, c, from, to) <= 0,
    ensures
        lex_sign(a, c, from, to) <= 0,
        lex_sign(a, c, from, to) == 0 ==> lex_sign(a, b, from, to) == 0 && lex_sign(b, c, from, to)
            == 0,
    decreases to - from,
{
    if from < to {
        if a[from] == b[from] && b[from] == c[from] {
            lemma_lex_sign_trans(a, b, c, from + 1, to);
        }
    }
}

/// Tuples in order on the columns `from..to` are in order on any shorter
/// run of columns that starts at `from`.
pub proof fn lemma_lex_sign_shorter(a: Seq<i32>, b: Seq<i32>, from: int, mid: int, to: int)
    requires
        from <= mid <= to,
        lex_sign(a, b, from, to) <= 0,
    ensures
        lex_sign(a, b, from, mid) <= 0,
    decreases mid - from,
{
    if from < mid {
        if a[from] == b[from] {
            lemma_lex_sign_shorter(a, b, from + 1, mid, to);
        }
    }
}

/// Each row of a sequence is a row of any sequence with the same rows.
pub proof fn lemma_same_rows_member(before: Seq<Seq<i32>>, after: Seq<Seq<i32>>, k: int) -> (origin:
    int)
    requires
        before.to_multiset() == after.to_multiset(),
        0 <= k < after.len(),
    ensures
        0 <= origin < before.len(),
        before[origin] == after[k],
{
    broadcast use vstd::seq_lib::to_multiset_contains;

    assert(after.contains(after[k]));
    assert(after.to_multiset().count(after[k]) > 0);
    assert(before.contains(after[k]));
    choose|at: int| 0 <= at < before.len() && before[at] == after[k]
}

/// Sorting has one result: two sorted sequences of rows of one width that
/// hold the same rows, each as often as the other, are the same sequence.
pub proof fn lemma_sorted_unique(a: Seq<Seq<i32>>, b: Seq<Seq<i32>>, width: int)
    requires
        rows_sorted(a, width),
        rows_sorted(b, width),
        a.to_multiset() == b.to_multiset(),
        forall|i: int| 0 <= i < a.len() ==> (#[trigger] a[i]).len() == width,
    ensures
        a == b,
    decreases a.len(),
{
    broadcast use {
        vstd::seq_lib::to_multiset_len,
        vstd::seq_lib::to_multiset_build,
        vstd::multiset::group_multiset_axioms,
    };

    assert(a.len() == b.len()) by {
        vstd::seq_lib::to_multiset_len(a);
        vstd::seq_lib::to_multiset_len(b);
    }
    if a.len() == 0 {
        assert(a =~= b);
    } else {
        let last = a.len() - 1;
        let ja = lemma_same_rows_member(a, b, last);
        let jb = lemma_same_rows_member(b, a, last);
        assert(row_le(a[last], b[last], width)) by {
            assert(row_le(b[jb], b[last], width));
        }
        assert(row_le(b[last], a[last], width)) by {
            assert(row_le(a[ja], a[last], width));
        }
        lemma_lex_sign_flip(a[last], b[last], 0, width);
        lemma_lex_sign_zero(a[last], b[last], 0, width);
        assert(a[last] =~= b[last]);
        let shorter_a = a.drop_last();
        let shorter_b = b.drop_last();
        assert(a =~= shorter_a.push(a[last]));
        assert(b =~= shorter_b.push(a[last]));
        assert(shorter_a.to_multiset() =~= shorter_b.to_multiset()) by {
            assert forall|row: Seq<i32>|
                shorter_a.to_multiset().count(row) == shorter_b.to_multiset().count(row) by {
                assert(shorter_a.to_multiset().insert(a[last]).count(row) == shorter_b.to_multiset().insert(
                    a[last],
                ).count(row));
            }
        }
        lemma_sorted_unique(shorter_a, shorter_b, width);
    }
}

} // verus!
