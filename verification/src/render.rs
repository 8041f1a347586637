//! Text for diagnostics: a relation as bracketed tuples, and a checksum
//! error as a sentence.

use crate::codec::ChecksumError;
use crate::relations::{lemma_row_in_bounds, Relation};
use vstd::prelude::*;
use vstd::string::*;

verus! {

/// The character of one decimal digit.
pub open spec fn digit_char(d: int) -> char {
    if d == 0 {
        '0'
    } else if d == 1 {
        '1'
    } else if d == 2 {
        '2'
    } else if d == 3 {
        '3'
    } else if d == 4 {
        '4'
    } else if d == 5 {
        '5'
    } else if d == 6 {
        '6'
    } else if d == 7 {
        '7'
    } else if d == 8 {
        '8'
    } else {
        '9'
    }
}

/// The decimal digits of a natural number, most significant first, with
/// no leading zero.
pub open spec fn digits(n: nat) -> Seq<char>
    decreases n,
{
    if n < 10 {
        seq![digit_char(n as int)]
    } else {
        digits(n / 10).push(digit_char((n % 10) as int))
    }
}

/// The decimal form of an integer, with a minus sign where it is negative.
pub open spec fn decimal(x: int) -> Seq<char> {
    if x < 0 {
        seq!['-'] + digits((-x) as nat)
    } else {
        digits(x as nat)
    }
}

/// The columns of a tuple in decimal, with a comma between neighbours.
pub open spec fn columns_text(row: Seq<i32>) -> Seq<char>
    decreases row.len(),
{
    if row.len() == 0 {
        Seq::empty()
    } else if row.len() == 1 {
        decimal(row[0] as int)
    } else {
        columns_text(row.drop_last()) + seq![','] + decimal(row.last() as int)
    }
}

/// A tuple between square brackets.
pub open spec fn tuple_text(row: Seq<i32>) -> Seq<char> {
    seq!['['] + columns_text(row) + seq![']']
}

/// The tuples one after the other, with nothing between them.
pub open spec fn tuples_text(rows: Seq<Seq<i32>>) -> Seq<char>
    decreases rows.len(),
{
    if rows.len() == 0 {
        Seq::empty()
    } else {
        tuples_text(rows.drop_last()) + tuple_text(rows.last())
    }
}

/// The line that describes a relation.
pub open spec fn relation_text(arity: int, size: int, rows: Seq<Seq<i32>>) -> Seq<char> {
    "Relation of arity "@ + decimal(arity) + " and size "@ + decimal(size) + ". Tuples: "@
        + tuples_text(rows)
}

/// The sentence that reports a checksum mismatch.
pub open spec fn checksum_text(expected: int, actual: int) -> Seq<char> {
    "Checksum error: expected "@ + decimal(expected) + ", actual "@ + decimal(actual)
}

/// One decimal digit as text.
fn digit_text(d: u64) -> (text: &'static str)
    requires
        d < 10,
    ensures
        text@ == seq![digit_char(d as int)],
{
    proof {
        reveal_strlit("0");
        reveal_strlit("1");
        reveal_strlit("2");
        reveal_strlit("3");
        reveal_strlit("4");
        reveal_strlit("5");
        reveal_strlit("6");
        reveal_strlit("7");
        reveal_strlit("8");
        reveal_strlit("9");
    }
    let text = if d == 0 {
        "0"
    } else if d == 1 {
        "1"
    } else if d == 2 {
        "2"
    } else if d == 3 {
        "3"
    } else if d == 4 {
        "4"
    } else if d == 5 {
        "5"
    } else if d == 6 {
        "6"
    } else if d == 7 {
        "7"
    } else if d == 8 {
        "8"
    } else {
        "9"
    };
    assert(text@ =~= seq![digit_char(d as int)]);
    text
}

/// Appends the decimal digits of `n`.
fn push_digits(text: &mut String, n: u64)
    ensures
        final(text)@ == old(text)@ + digits(n as nat),
    decreases n,
{
    if n >= 10 {
        push_digits(text, n / 10);
    }
    text.append(digit_text(n % 10));
    proof {
        assert(text@ =~= old(text)@ + digits(n as nat));
    }
}

/// Appends the decimal form of `x`.
fn push_decimal(text: &mut String, x: i64)
    requires
        x > i64::MIN,
    ensures
        final(text)@ == old(text)@ + decimal(x as int),
{
    if x < 0 {
        proof {
            reveal_strlit("-");
        }
        text.append("-");
        push_digits(text, (0 - x) as u64);
        proof {
            assert(text@ =~= old(text)@ + decimal(x as int));
        }
    } else {
        push_digits(text, x as u64);
    }
}

impl Relation {
    /// The tuples as text: each between square brackets, its columns in
    /// decimal with commas between them, and nothing between tuples.
    pub fn print_data(&self) -> (text: String)
        requires
            self.wf(),
        ensures
            text@ == tuples_text(self.rows()),
    {
        let ghost rows = self.rows();
        let mut result = String::new();
        let mut i: usize = 0;
        proof {
            reveal_strlit("[");
            reveal_strlit("]");
            reveal_strlit(",");
            assert(rows.take(0) =~= Seq::<Seq<i32>>::empty());
        }
        while i < self.size
            invariant
                self.wf(),
                rows == self.rows(),
                i <= self.size,
                "["@ == seq!['['],
                "]"@ == seq![']'],
                ","@ == seq![','],
                result@ == tuples_text(rows.take(i as int)),
            decreases self.size - i,
        {
            let ghost row = rows[i as int];
            let ghost sofar = result@;
            proof {
                lemma_row_in_bounds(self.size as int, self.arity as int, i as int);
                assert(row.take(0) =~= Seq::<i32>::empty());
            }
            result.append("[");
            let mut j: usize = 0;
            while j < self.arity
                invariant
                    self.wf(),
                    rows == self.rows(),
                    i < self.size,
                    row == rows[i as int],
                    row.len() == self.arity,
                    j <= self.arity,
                    ","@ == seq![','],
                    result@ == sofar + seq!['['] + columns_text(row.take(j as int)),
                decreases self.arity - j,
            {
                let ghost before = result@;
                if j > 0 {
                    result.append(",");
                }
                push_decimal(&mut result, self.get(i, j) as i64);
                proof {
                    let longer = row.take(j + 1);
                    assert(longer.drop_last() =~= row.take(j as int));
                    assert(longer.last() == row[j as int]);
                    assert(result@ =~= sofar + seq!['['] + columns_text(longer));
                }
                j += 1;
            }
            result.append("]");
            proof {
                assert(row.take(self.arity as int) =~= row);
                assert(rows.take(i + 1).drop_last() =~= rows.take(i as int));
                assert(result@ =~= tuples_text(rows.take(i + 1)));
            }
            i += 1;
        }
        proof {
            assert(rows.take(self.size as int) =~= rows);
        }
        result
    }

    /// One line that describes the relation: its arity, its size and its
    /// tuples.
    pub fn to_string(&self) -> (text: String)
        requires
            self.wf(),
        ensures
            text@ == relation_text(self.arity as int, self.size as int, self.rows()),
    {
        let mut result = String::new();
        result.append("Relation of arity ");
        push_digits(&mut result, self.arity as u64);
        result.append(" and size ");
        push_digits(&mut result, self.size as u64);
        result.append(". Tuples: ");
        let tuples = self.print_data();
        result.append(tuples.as_str());
        proof {
            assert(result@ =~= relation_text(self.arity as int, self.size as int, self.rows()));
        }
        result
    }
}

impl ChecksumError {
    /// The mismatch in words, with both checksums in decimal.
    pub fn to_string(&self) -> (text: String)
        ensures
            text@ == checksum_text(self.expected as int, self.actual as int),
    {
        let mut result = String::new();
        result.append("Checksum error: expected ");
        push_digits(&mut result, self.expected as u64);
        result.append(", actual ");
        push_digits(&mut result, self.actual as u64);
        proof {
            assert(result@ =~= checksum_text(self.expected as int, self.actual as int));
        }
        result
    }
}

} // verus!
