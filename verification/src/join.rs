//! The join engine: a sort-merge equi-join of two sorted relations on their
//! leading key columns.

use crate::order::{
    agree, lemma_lex_sign_flip, lemma_lex_sign_shorter, lemma_lex_sign_skip, lemma_lex_sign_trans,
    lemma_lex_sign_zero, lex_sign, rows_sorted,
};
use crate::relations::{
    lemma_row_in_bounds, make_sorted, table_row, table_rows, Relation,
};
use vstd::prelude::*;

verus! {

/// The tuple that a matching pair contributes: all of `l`, then `r` from
/// column `k` on, so that the shared key columns appear once.
pub open spec fn joined_row(l: Seq<i32>, r: Seq<i32>, k: int) -> Seq<i32> {
    l + r.subrange(k, r.len() as int)
}

/// The joined tuples of `l` with each row of `right` that agrees with it on
/// the first `k` columns, in the order of `right`.
pub open spec fn row_matches(l: Seq<i32>, right: Seq<Seq<i32>>, k: int) -> Seq<Seq<i32>>
    decreases right.len(),
{
    if right.len() == 0 {
        Seq::empty()
    } else if agree(l, right.last(), 0, k) {
        row_matches(l, right.drop_last(), k).push(joined_row(l, right.last(), k))
    } else {
        row_matches(l, right.drop_last(), k)
    }
}

/// The equi-join of `left` and `right` on the first `k` columns: one joined
/// tuple for each pair of rows that agree there, by left row, then by right
/// row.
pub open spec fn join_rows(left: Seq<Seq<i32>>, right: Seq<Seq<i32>>, k: int) -> Seq<Seq<i32>>
    decreases left.len(),
{
    if left.len() == 0 {
        Seq::empty()
    } else {
        join_rows(left.drop_last(), right, k) + row_matches(left.last(), right, k)
    }
}

/// The pairs of a row index of `left` and a row index of `right` whose rows
/// agree on the first `k` columns.
pub open spec fn matching_pairs(left: Seq<Seq<i32>>, right: Seq<Seq<i32>>, k: int) -> Set<
    (int, int),
> {
    Set::new(
        |p: (int, int)|
            0 <= p.0 < left.len() && 0 <= p.1 < right.len() && agree(left[p.0], right[p.1], 0, k),
    )
}

/// The pairs of `matching_pairs` whose left index is `i`, for a left row `l`.
pub open spec fn pairs_of_row(i: int, l: Seq<i32>, right: Seq<Seq<i32>>, k: int) -> Set<
    (int, int),
> {
    Set::new(|p: (int, int)| p.0 == i && 0 <= p.1 < right.len() && agree(l, right[p.1], 0, k))
}

/// Rows of `right` from index `n` on that do not match `l` add nothing.
pub proof fn lemma_row_matches_tail(l: Seq<i32>, right: Seq<Seq<i32>>, n: int, k: int)
    requires
        0 <= n <= right.len(),
        forall|j: int| n <= j < right.len() ==> !agree(l, #[trigger] right[j], 0, k),
    ensures
        row_matches(l, right, k) == row_matches(l, right.take(n), k),
    decreases right.len() - n,
{
    if n == right.len() {
        assert(right.take(n) =~= right);
    } else {
        let shorter = right.drop_last();
        assert(!agree(l, right[right.len() - 1], 0, k));
        lemma_row_matches_tail(l, shorter, n, k);
        assert(shorter.take(n) =~= right.take(n));
    }
}

/// One more row of `right`: a matching one adds its joined tuple.
pub proof fn lemma_row_matches_step(l: Seq<i32>, right: Seq<Seq<i32>>, n: int, k: int)
    requires
        0 <= n < right.len(),
    ensures
        row_matches(l, right.take(n + 1), k) == if agree(l, right[n], 0, k) {
            row_matches(l, right.take(n), k).push(joined_row(l, right[n], k))
        } else {
            row_matches(l, right.take(n), k)
        },
{
    assert(right.take(n + 1).drop_last() =~= right.take(n));
}

/// One more row of `left` adds its matches.
pub proof fn lemma_join_rows_step(left: Seq<Seq<i32>>, right: Seq<Seq<i32>>, n: int, k: int)
    requires
        0 <= n < left.len(),
    ensures
        join_rows(left.take(n + 1), right, k) == join_rows(left.take(n), right, k) + row_matches(
            left[n],
            right,
            k,
        ),
{
    assert(left.take(n + 1).drop_last() =~= left.take(n));
}

/// Rows of `left` at the indices `from..to` that match nothing add nothing.
pub proof fn lemma_join_rows_skip(
    left: Seq<Seq<i32>>,
    right: Seq<Seq<i32>>,
    from: int,
    to: int,
    k: int,
)
    requires
        0 <= from <= to <= left.len(),
        forall|i: int, j: int|
            from <= i < to && 0 <= j < right.len() ==> !agree(
                #[trigger] left[i],
                #[trigger] right[j],
                0,
                k,
            ),
    ensures
        join_rows(left.take(to), right, k) == join_rows(left.take(from), right, k),
    decreases to - from,
{
    if from < to {
        lemma_join_rows_skip(left, right, from, to - 1, k);
        lemma_join_rows_step(left, right, to - 1, k);
        lemma_row_matches_tail(left[to - 1], right, 0, k);
        assert(right.take(0) =~= Seq::<Seq<i32>>::empty());
        assert(join_rows(left.take(to - 1), right, k) + Seq::<Seq<i32>>::empty() =~= join_rows(
            left.take(to - 1),
            right,
            k,
        ));
    }
}

/// A left row has as many joined tuples as it has matching pairs.
pub proof fn lemma_row_matches_count(i: int, l: Seq<i32>, right: Seq<Seq<i32>>, k: int)
    ensures
        pairs_of_row(i, l, right, k).finite(),
        pairs_of_row(i, l, right, k).len() == row_matches(l, right, k).len(),
        row_matches(l, right, k).len() <= right.len(),
        k == 0 ==> row_matches(l, right, k).len() == right.len(),
    decreases right.len(),
{
    broadcast use vstd::set::group_set_axioms;

    if right.len() == 0 {
        assert(pairs_of_row(i, l, right, k) =~= Set::<(int, int)>::empty());
    } else {
        let shorter = right.drop_last();
        let last = right.len() - 1;
        lemma_row_matches_count(i, l, shorter, k);
        if agree(l, right.last(), 0, k) {
            assert(pairs_of_row(i, l, right, k) =~= pairs_of_row(i, l, shorter, k).insert(
                (i, last),
            ));
        } else {
            assert(pairs_of_row(i, l, right, k) =~= pairs_of_row(i, l, shorter, k));
        }
    }
}

/// The join has one tuple for each matching pair of rows: no more than the
/// product of the two sizes, and exactly that where the key is empty.
pub proof fn lemma_join_rows_count(left: Seq<Seq<i32>>, right: Seq<Seq<i32>>, k: int)
    ensures
        matching_pairs(left, right, k).finite(),
        join_rows(left, right, k).len() == matching_pairs(left, right, k).len(),
        join_rows(left, right, k).len() <= left.len() * right.len(),
        k == 0 ==> join_rows(left, right, k).len() == left.len() * right.len(),
    decreases left.len(),
{
    broadcast use vstd::set::group_set_axioms;

    if left.len() == 0 {
        assert(matching_pairs(left, right, k) =~= Set::<(int, int)>::empty());
        assert(left.len() * right.len() == 0) by (nonlinear_arith)
            requires
                left.len() == 0,
        ;
    } else {
        let shorter = left.drop_last();
        let last = left.len() - 1;
        let head = matching_pairs(shorter, right, k);
        let tail = pairs_of_row(last, left.last(), right, k);
        lemma_join_rows_count(shorter, right, k);
        lemma_row_matches_count(last, left.last(), right, k);
        assert(matching_pairs(left, right, k) =~= head + tail);
        assert(head.disjoint(tail));
        vstd::set_lib::lemma_set_disjoint_lens(head, tail);
        assert(left.len() * right.len() == shorter.len() * right.len() + right.len())
            by (nonlinear_arith)
            requires
                left.len() == shorter.len() + 1,
        ;
    }
}

/// Among sorted rows, a row between two that share a key shares it too.
pub proof fn lemma_key_run(rows: Seq<Seq<i32>>, width: int, k: int, a: int, m: int, z: int)
    requires
        rows_sorted(rows, width),
        0 <= k <= width,
        0 <= a <= m <= z < rows.len(),
        agree(rows[a], rows[z], 0, k),
    ensures
        agree(rows[a], rows[m], 0, k),
        agree(rows[m], rows[z], 0, k),
{
    lemma_lex_sign_shorter(rows[a], rows[m], 0, k, width);
    lemma_lex_sign_shorter(rows[m], rows[z], 0, k, width);
    lemma_lex_sign_zero(rows[a], rows[z], 0, k);
    lemma_lex_sign_trans(rows[a], rows[m], rows[z], 0, k);
    lemma_lex_sign_zero(rows[a], rows[m], 0, k);
    lemma_lex_sign_zero(rows[m], rows[z], 0, k);
}

/// Rows that agree on the compared columns compare alike with any third.
pub proof fn lemma_lex_sign_same_key(a: Seq<i32>, b: Seq<i32>, c: Seq<i32>, from: int, to: int)
    requires
        agree(a, b, from, to),
    ensures
        lex_sign(a, c, from, to) == lex_sign(b, c, from, to),
        lex_sign(c, a, from, to) == lex_sign(c, b, from, to),
    decreases to - from,
{
    if from < to {
        lemma_lex_sign_same_key(a, b, c, from + 1, to);
    }
}

/// Compares the first `prefix` columns of a tuple of `left` with those of a
/// tuple of `right`, leftmost first: `-1` where the left key sorts first,
/// `1` where the right key does, `0` where the keys are equal.
fn compare_prefix(
    left: &Relation,
    left_index: usize,
    right: &Relation,
    right_index: usize,
    prefix: usize,
) -> (sign: i32)
    requires
        left.wf(),
        right.wf(),
        left_index < left.size,
        right_index < right.size,
        prefix <= left.arity,
        prefix <= right.arity,
    ensures
        sign == lex_sign(
            left.rows()[left_index as int],
            right.rows()[right_index as int],
            0,
            prefix as int,
        ),
{
    let ghost l = left.rows()[left_index as int];
    let ghost r = right.rows()[right_index as int];
    let mut i: usize = 0;
    while i < prefix
        invariant
            left.wf(),
            right.wf(),
            left_index < left.size,
            right_index < right.size,
            prefix <= left.arity,
            prefix <= right.arity,
            i <= prefix,
            l == left.rows()[left_index as int],
            r == right.rows()[right_index as int],
            agree(l, r, 0, i as int),
        decreases prefix - i,
    {
        let ours = left.get(left_index, i);
        let theirs = right.get(right_index, i);
        if ours != theirs {
            proof {
                lemma_lex_sign_skip(l, r, 0, i as int, prefix as int);
            }
            return if ours < theirs {
                -1
            } else {
                1
            };
        }
        i += 1;
    }
    proof {
        lemma_lex_sign_zero(l, r, 0, prefix as int);
    }
    0
}

/// Appends to `data` the joined tuple of a tuple of `left` and a tuple of
/// `right`.
fn write_match(
    left: &Relation,
    left_index: usize,
    right: &Relation,
    right_index: usize,
    data: &mut Vec<i32>,
    prefix: usize,
)
    requires
        left.wf(),
        right.wf(),
        left_index < left.size,
        right_index < right.size,
        prefix <= right.arity,
    ensures
        final(data)@ == old(data)@ + joined_row(
            left.rows()[left_index as int],
            right.rows()[right_index as int],
            prefix as int,
        ),
{
    let ghost l = left.rows()[left_index as int];
    let ghost r = right.rows()[right_index as int];
    proof {
        lemma_row_in_bounds(left.size as int, left.arity as int, left_index as int);
        lemma_row_in_bounds(right.size as int, right.arity as int, right_index as int);
    }
    let mut i: usize = 0;
    while i < left.arity
        invariant
            left.wf(),
            left_index < left.size,
            i <= left.arity,
            l == left.rows()[left_index as int],
            l.len() == left.arity,
            data@ == old(data)@ + l.take(i as int),
        decreases left.arity - i,
    {
        data.push(left.get(left_index, i));
        proof {
            assert(l.take(i + 1) =~= l.take(i as int).push(l[i as int]));
            assert(data@ =~= old(data)@ + l.take(i + 1));
        }
        i += 1;
    }
    proof {
        assert(l.take(left.arity as int) =~= l);
        assert(r.subrange(prefix as int, prefix as int) =~= Seq::<i32>::empty());
        assert(data@ =~= old(data)@ + (l + r.subrange(prefix as int, prefix as int)));
    }
    let mut i: usize = prefix;
    while i < right.arity
        invariant
            right.wf(),
            right_index < right.size,
            prefix <= i <= right.arity,
            r == right.rows()[right_index as int],
            r.len() == right.arity,
            data@ == old(data)@ + (l + r.subrange(prefix as int, i as int)),
        decreases right.arity - i,
    {
        data.push(right.get(right_index, i));
        proof {
            assert(r.subrange(prefix as int, i + 1) =~= r.subrange(prefix as int, i as int).push(
                r[i as int],
            ));
            assert(data@ =~= old(data)@ + (l + r.subrange(prefix as int, i + 1)));
        }
        i += 1;
    }
}

/// The skip-ahead search. The tuple at `low - 1` is the anchor; the result
/// is the first index in `low..=high` whose tuple differs from the anchor
/// in its first `prefix` columns, or `high + 1` where none does. Tuples
/// with one key stand together in a sorted relation, so the search halves
/// the range at each step.
fn binary_search(relation: &Relation, low: usize, high: usize, prefix: usize) -> (next: usize)
    requires
        relation.wf(),
        relation.sorted(),
        prefix <= relation.arity,
        1 <= low <= high + 1,
        high < relation.size,
    ensures
        low <= next <= high + 1,
        forall|i: int|
            low - 1 <= i < next ==> agree(
                relation.rows()[low - 1],
                #[trigger] relation.rows()[i],
                0,
                prefix as int,
            ),
        next <= high ==> !agree(
            relation.rows()[low - 1],
            relation.rows()[next as int],
            0,
            prefix as int,
        ),
{
    let ghost rows = relation.rows();
    let ghost width = relation.arity as int;
    let ghost k = prefix as int;
    let anchor: usize = low - 1;
    let mut bot: usize = low;
    let mut top: usize = high + 1;
    while bot < top
        invariant
            relation.wf(),
            relation.sorted(),
            rows == relation.rows(),
            width == relation.arity,
            k == prefix,
            prefix <= relation.arity,
            anchor == low - 1,
            low <= bot <= top <= high + 1,
            high < relation.size,
            forall|i: int| anchor <= i < bot ==> agree(rows[anchor as int], #[trigger] rows[i], 0, k),
            forall|i: int| top <= i <= high ==> !agree(rows[anchor as int], #[trigger] rows[i], 0, k),
        decreases top - bot,
    {
        let mid = bot + (top - bot) / 2;
        if compare_prefix(relation, anchor, relation, mid, prefix) == 0 {
            proof {
                lemma_lex_sign_zero(rows[anchor as int], rows[mid as int], 0, k);
                assert forall|i: int| anchor <= i < mid + 1 implies agree(
                    rows[anchor as int],
                    #[trigger] rows[i],
                    0,
                    k,
                ) by {
                    lemma_key_run(rows, width, k, anchor as int, i, mid as int);
                }
            }
            bot = mid + 1;
        } else {
            proof {
                lemma_lex_sign_zero(rows[anchor as int], rows[mid as int], 0, k);
                assert forall|i: int| mid <= i <= high implies !agree(
                    rows[anchor as int],
                    #[trigger] rows[i],
                    0,
                    k,
                ) by {
                    if agree(rows[anchor as int], rows[i], 0, k) {
                        lemma_key_run(rows, width, k, anchor as int, mid as int, i);
                    }
                }
            }
            top = mid;
        }
    }
    bot
}

/// Appending one row to a flat buffer appends it to the buffer's rows.
pub proof fn lemma_rows_after_append(data: Seq<i32>, size: int, arity: int, row: Seq<i32>)
    requires
        0 <= size,
        0 <= arity,
        data.len() == size * arity,
        row.len() == arity,
    ensures
        (data + row).len() == (size + 1) * arity,
        table_rows(data + row, size + 1, arity) == table_rows(data, size, arity).push(row),
{
    let longer = data + row;
    let before = table_rows(data, size, arity);
    let after = table_rows(longer, size + 1, arity);
    assert((size + 1) * arity == size * arity + arity) by (nonlinear_arith);
    assert forall|r: int| 0 <= r < size + 1 implies after[r] == before.push(row)[r] by {
        lemma_row_in_bounds(size + 1, arity, r);
        if r < size {
            lemma_row_in_bounds(size, arity, r);
            assert(table_row(longer, arity, r) =~= table_row(data, arity, r));
        } else {
            assert(table_row(longer, arity, r) =~= row);
        }
    }
    assert(after =~= before.push(row));
}

/// Every row of `right` before index `ri` has a key that sorts before the
/// key of every row of `left` from index `li` on.
spec fn keys_before(right: Seq<Seq<i32>>, ri: int, left: Seq<Seq<i32>>, li: int, k: int) -> bool {
    forall|j: int, i: int|
        0 <= j < ri && li <= i < left.len() ==> lex_sign(
            #[trigger] right[j],
            #[trigger] left[i],
            0,
            k,
        ) < 0
}

/// A row whose key sorts before that of row `from` of a sorted sequence
/// matches no row from `from` on.
proof fn lemma_no_match_from(l: Seq<i32>, rows: Seq<Seq<i32>>, width: int, k: int, from: int, j: int)
    requires
        rows_sorted(rows, width),
        0 <= k <= width,
        0 <= from <= j < rows.len(),
        lex_sign(l, rows[from], 0, k) < 0,
    ensures
        lex_sign(l, rows[j], 0, k) < 0,
        !agree(l, rows[j], 0, k),
{
    lemma_lex_sign_shorter(rows[from], rows[j], 0, k, width);
    lemma_lex_sign_trans(l, rows[from], rows[j], 0, k);
    lemma_lex_sign_zero(l, rows[j], 0, k);
}

/// Joins two sorted relations on their first `prefix` columns. The result
/// has one tuple for each pair of a left and a right tuple with equal keys:
/// the left tuple followed by the right tuple's columns from `prefix` on.
/// It is sorted, and neither input is changed.
///
/// Two cursors walk the inputs. Where the keys under them are equal, the
/// left tuple is paired with the whole run of right tuples that share its
/// key, and the left cursor moves on by one. Where they differ, the cursor
/// on the smaller key skips to the next tuple with another key.
pub fn do_join(left: &Relation, right: &Relation, prefix: usize) -> (joined: Relation)
    requires
        joinable(left, right, prefix),
    ensures
        joined.wf(),
        joined.arity == left.arity + right.arity - prefix,
        joined.sorted(),
        joined.rows().to_multiset() == join_rows(
            left.rows(),
            right.rows(),
            prefix as int,
        ).to_multiset(),
        joined.size == matching_pairs(left.rows(), right.rows(), prefix as int).len(),
        prefix == 0 ==> joined.size == left.size * right.size,
        left.size == 0 || right.size == 0 ==> joined.size == 0,
{
    let ghost lrows = left.rows();
    let ghost rrows = right.rows();
    let ghost k = prefix as int;
    let arity: usize = left.arity - prefix + right.arity;
    let mut data: Vec<i32> = Vec::new();
    let mut size: usize = 0;
    let mut left_index: usize = 0;
    let mut right_index: usize = 0;
    proof {
        assert(lrows.take(0) =~= Seq::<Seq<i32>>::empty());
        assert(table_rows(data@, 0, arity as int) =~= Seq::<Seq<i32>>::empty());
        lemma_join_rows_count(lrows, rrows, k);
    }
    while left_index < left.size && right_index < right.size
        invariant
            left.wf(),
            right.wf(),
            left.sorted(),
            right.sorted(),
            prefix <= left.arity,
            prefix <= right.arity,
            arity == left.arity + right.arity - prefix,
            arity == 0 ==> left.size * right.size <= usize::MAX,
            lrows == left.rows(),
            rrows == right.rows(),
            k == prefix,
            left_index <= left.size,
            right_index <= right.size,
            data.len() == size * arity,
            table_rows(data@, size as int, arity as int) == join_rows(
                lrows.take(left_index as int),
                rrows,
                k,
            ),
            keys_before(rrows, right_index as int, lrows, left_index as int, k),
        decreases (left.size - left_index) + (right.size - right_index),
    {
        let ghost l = lrows[left_index as int];
        let ghost base = join_rows(lrows.take(left_index as int), rrows, k);
        let sign = compare_prefix(left, left_index, right, right_index, prefix);
        if sign == 0 {
            let mut run: usize = right_index;
            let mut matching: bool = true;
            proof {
                lemma_lex_sign_zero(l, rrows[right_index as int], 0, k);
                assert forall|j: int| 0 <= j < right_index implies !agree(
                    l,
                    #[trigger] rrows.take(right_index as int)[j],
                    0,
                    k,
                ) by {
                    lemma_lex_sign_flip(rrows[j], l, 0, k);
                    lemma_lex_sign_zero(l, rrows[j], 0, k);
                }
                lemma_row_matches_tail(l, rrows.take(right_index as int), 0, k);
                assert(rrows.take(right_index as int).take(0) =~= Seq::<Seq<i32>>::empty());
                assert(base + Seq::<Seq<i32>>::empty() =~= base);
                lemma_join_rows_count(lrows.take(left_index as int), rrows, k);
            }
            while matching
                invariant
                    left.wf(),
                    right.wf(),
                    prefix <= left.arity,
                    prefix <= right.arity,
                    arity == left.arity + right.arity - prefix,
                    arity == 0 ==> left.size * right.size <= usize::MAX,
                    lrows == left.rows(),
                    rrows == right.rows(),
                    k == prefix,
                    left_index < left.size,
                    l == lrows[left_index as int],
                    right_index <= run <= right.size,
                    matching ==> run < right.size && agree(l, rrows[run as int], 0, k),
                    run > right_index ==> agree(l, rrows[run - 1], 0, k),
                    !matching ==> run > right_index && (run == right.size || !agree(
                        l,
                        rrows[run as int],
                        0,
                        k,
                    )),
                    data.len() == size * arity,
                    base.len() <= left_index * right.size,
                    table_rows(data@, size as int, arity as int) == base + row_matches(
                        l,
                        rrows.take(run as int),
                        k,
                    ),
                decreases right.size - run + (if matching { 1int } else { 0int }),
            {
                let ghost sofar = data@;
                let ghost r = rrows[run as int];
                write_match(left, left_index, right, run, &mut data, prefix);
                proof {
                    lemma_row_in_bounds(left.size as int, left.arity as int, left_index as int);
                    lemma_row_in_bounds(right.size as int, right.arity as int, run as int);
                    lemma_rows_after_append(
                        sofar,
                        size as int,
                        arity as int,
                        joined_row(l, r, k),
                    );
                    lemma_row_matches_step(l, rrows, run as int, k);
                    assert((base + row_matches(l, rrows.take(run as int), k)).push(
                        joined_row(l, r, k),
                    ) =~= base + row_matches(l, rrows.take(run + 1), k));
                    lemma_row_matches_count(0, l, rrows.take(run + 1), k);
                    assert(size + 1 <= usize::MAX) by (nonlinear_arith)
                        requires
                            data.len() == (size + 1) * arity,
                            data.len() <= usize::MAX,
                            arity == 0 ==> left.size * right.size <= usize::MAX,
                            size + 1 <= base.len() + right.size,
                            base.len() <= left_index * right.size,
                            left_index < left.size,
                            0 <= arity,
                            0 <= size,
                    ;
                }
                size += 1;
                run += 1;
                matching = run < right.size && compare_prefix(left, left_index, right, run, prefix)
                    == 0;
                proof {
                    if run < right.size {
                        lemma_lex_sign_zero(l, rrows[run as int], 0, k);
                    }
                }
            }
            proof {
                assert forall|j: int| run <= j < rrows.len() implies !agree(
                    l,
                    #[trigger] rrows[j],
                    0,
                    k,
                ) by {
                    if agree(l, rrows[j], 0, k) {
                        lemma_key_run(rrows, right.arity as int, k, run - 1, run as int, j);
                    }
                }
                lemma_row_matches_tail(l, rrows, run as int, k);
                lemma_join_rows_step(lrows, rrows, left_index as int, k);
            }
            left_index += 1;
        } else if sign < 0 {
            let next = binary_search(left, left_index + 1, left.size - 1, prefix);
            proof {
                assert forall|i: int, j: int|
                    left_index <= i < next && 0 <= j < rrows.len() implies !agree(
                    #[trigger] lrows[i],
                    #[trigger] rrows[j],
                    0,
                    k,
                ) by {
                    lemma_lex_sign_same_key(l, lrows[i], rrows[j], 0, k);
                    lemma_lex_sign_zero(lrows[i], rrows[j], 0, k);
                    if j < right_index {
                        lemma_lex_sign_flip(rrows[j], lrows[i], 0, k);
                    } else {
                        lemma_no_match_from(l, rrows, right.arity as int, k, right_index as int, j);
                    }
                }
                lemma_join_rows_skip(lrows, rrows, left_index as int, next as int, k);
            }
            left_index = next;
        } else {
            let next = binary_search(right, right_index + 1, right.size - 1, prefix);
            proof {
                let anchor = rrows[right_index as int];
                lemma_lex_sign_flip(l, anchor, 0, k);
                assert forall|j: int, i: int|
                    0 <= j < next && left_index <= i < lrows.len() implies lex_sign(
                    #[trigger] rrows[j],
                    #[trigger] lrows[i],
                    0,
                    k,
                ) < 0 by {
                    if j >= right_index {
                        lemma_lex_sign_shorter(l, lrows[i], 0, k, left.arity as int);
                        lemma_lex_sign_trans(anchor, l, lrows[i], 0, k);
                        lemma_lex_sign_same_key(anchor, rrows[j], lrows[i], 0, k);
                    }
                }
            }
            right_index = next;
        }
    }
    proof {
        if left_index < left.size {
            assert forall|i: int, j: int|
                left_index <= i < lrows.len() && 0 <= j < rrows.len() implies !agree(
                #[trigger] lrows[i],
                #[trigger] rrows[j],
                0,
                k,
            ) by {
                lemma_lex_sign_flip(rrows[j], lrows[i], 0, k);
                lemma_lex_sign_zero(lrows[i], rrows[j], 0, k);
            }
            lemma_join_rows_skip(lrows, rrows, left_index as int, lrows.len() as int, k);
        }
        assert(lrows.take(lrows.len() as int) =~= lrows);
        assert(left.size * right.size == 0 || (left.size > 0 && right.size > 0))
            by (nonlinear_arith);
    }
    make_sorted(data, size, arity)
}

/// What `do_join` asks of its inputs: both well-formed and sorted, a key
/// no wider than either, and a result whose arity and tuple count fit a
/// `usize`. (A result with columns cannot have more tuples than that; one
/// without columns has as many as the product of the two sizes.)
pub open spec fn joinable(left: &Relation, right: &Relation, prefix: usize) -> bool {
    &&& left.wf()
    &&& right.wf()
    &&& left.sorted()
    &&& right.sorted()
    &&& prefix <= left.arity
    &&& prefix <= right.arity
    &&& left.arity + right.arity - prefix <= usize::MAX
    &&& left.arity + right.arity - prefix == 0 ==> left.size * right.size <= usize::MAX
}

/// Joins like `do_join`, after checking what `do_join` takes for granted:
/// `None` where an input is not well-formed or not sorted, where `prefix`
/// exceeds an arity, or where the result would not fit.
pub fn try_join(left: &Relation, right: &Relation, prefix: usize) -> (joined: Option<Relation>)
    ensures
        joined is Some <==> joinable(left, right, prefix),
        joined is Some ==> {
            &&& joined.unwrap().wf()
            &&& joined.unwrap().arity == left.arity + right.arity - prefix
            &&& joined.unwrap().sorted()
            &&& joined.unwrap().rows().to_multiset() == join_rows(
                left.rows(),
                right.rows(),
                prefix as int,
            ).to_multiset()
            &&& joined.unwrap().size == matching_pairs(
                left.rows(),
                right.rows(),
                prefix as int,
            ).len()
            &&& prefix == 0 ==> joined.unwrap().size == left.size * right.size
            &&& left.size == 0 || right.size == 0 ==> joined.unwrap().size == 0
        },
{
    if !left.is_well_formed() || !right.is_well_formed() {
        return None;
    }
    if prefix > left.arity || prefix > right.arity {
        return None;
    }
    if !left.is_sorted() || !right.is_sorted() {
        return None;
    }
    match (left.arity - prefix).checked_add(right.arity) {
        None => {
            return None;
        },
        Some(arity) => {
            if arity == 0 && left.size.checked_mul(right.size).is_none() {
                return None;
            }
        },
    }
    Some(do_join(left, right, prefix))
}

} // verus!
