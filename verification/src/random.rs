//! Relations filled with random values, for trying the other parts out.

use crate::order::lemma_same_rows_member;
use crate::relations::{lemma_cell_in_bounds, make_sorted, table_rows, Relation};
use rand::rngs::ThreadRng;
use rand::Rng;
use vstd::prelude::*;

verus! {

/// `rand::rngs::ThreadRng`, carried from `rand::thread_rng` to
/// `Rng::gen_range` and never looked into.
#[verifier::external_type_specification]
#[verifier::external_body]
pub struct ExThreadRng(ThreadRng);

/// `rand::thread_rng`: a handle to the calling thread's generator. Nothing
/// is claimed of it. The call takes no input and fails only where the
/// operating system cannot seed the generator.
#[verifier::external_body]
fn thread_generator() -> ThreadRng {
    rand::thread_rng()
}

/// `Rng::gen_range` on the half-open range `low..high`: some value of that
/// range, and nothing more is claimed of which. The range must not be
/// empty, or the call panics.
#[verifier::external_body]
fn random_below(generator: &mut ThreadRng, low: u32, high: u32) -> (value: u32)
    requires
        low < high,
    ensures
        low <= value < high,
{
    generator.gen_range(low..high)
}

/// A sorted relation of 1 to 999 tuples with 2 to 4 columns, each tuple
/// drawn with column values from 0 to 49.
pub fn random_sorted_relation() -> (relation: Relation)
    ensures
        relation.wf(),
        relation.sorted(),
        1 <= relation.size < 1000,
        2 <= relation.arity < 5,
        forall|i: int, j: int|
            0 <= i < relation.size && 0 <= j < relation.arity ==> 0 <= (
            #[trigger] relation.rows()[i][j]) < 50,
{
    let mut generator = thread_generator();
    let size: usize = random_below(&mut generator, 1, 1000) as usize;
    let arity: usize = random_below(&mut generator, 2, 5) as usize;
    proof {
        assert(size * arity < 5000) by (nonlinear_arith)
            requires
                size < 1000,
                arity < 5,
        ;
    }
    let cells: usize = size * arity;
    let mut data: Vec<i32> = Vec::with_capacity(cells);
    let mut filled: usize = 0;
    while filled < cells
        invariant
            filled <= cells,
            data.len() == filled,
            forall|p: int| 0 <= p < filled ==> 0 <= #[trigger] data@[p] < 50,
        decreases cells - filled,
    {
        data.push(random_below(&mut generator, 0, 50) as i32);
        filled += 1;
    }
    let ghost drawn = table_rows(data@, size as int, arity as int);
    let ghost cells_drawn = data@;
    let relation = make_sorted(data, size, arity);
    proof {
        assert forall|i: int, j: int|
            0 <= i < relation.size && 0 <= j < relation.arity implies 0 <= (
        #[trigger] relation.rows()[i][j]) < 50 by {
            let origin = lemma_same_rows_member(drawn, relation.rows(), i);
            lemma_cell_in_bounds(size as int, arity as int, origin, j);
            assert(drawn[origin][j] == cells_drawn[origin * arity + j]);
        }
    }
    relation
}

} // verus!
