//! What this crate takes on trust from the crates it calls. Nothing here is
//! proved: each contract restates what the called crate documents.

use vstd::prelude::*;
use crate::game_of_life::GameOfLife;
use crate::matrix::Matrix;
use crate::rule::{BoundaryPolicy, next_cells};
use rand::Rng;
use rayon::iter::{IndexedParallelIterator, IntoParallelRefMutIterator, ParallelIterator};

verus! {

/// `rand::rngs::ThreadRng`, the generator that `rand` keeps for each thread.
#[verifier::external_type_specification]
#[verifier::external_body]
pub struct ExThreadRng(rand::rngs::ThreadRng);

/// `serde_json::Error`, what `serde_json` reports of a text it cannot read.
#[verifier::external_type_specification]
#[verifier::external_body]
pub struct ExJsonError(serde_json::Error);

/// `rand::thread_rng`: a handle to the calling thread's generator. Nothing
/// is claimed of it. `rand` panics where the operating system gives it
/// nothing to seed the generator with; no argument decides that, so no
/// contract can rule it out.
#[verifier::external_body]
pub(crate) fn thread_rng() -> rand::rngs::ThreadRng {
    rand::thread_rng()
}

/// `rand::Rng::gen_range` on the range `0..=1`: a value of that range, so a
/// cell. Which of the two it is depends on chance and is left open.
#[verifier::external_body]
pub(crate) fn gen_cell(rng: &mut rand::rngs::ThreadRng) -> (cell: u8)
    ensures
        cell <= 1,
{
    rng.gen_range(0..=1)
}

/// The rows that `serde_json` reads from a JSON text as an array of arrays
/// of bytes, or `None` where it reads no such value from the text.
pub uninterp spec fn json_rows(text: Seq<u8>) -> Option<Seq<Seq<u8>>>;

/// `serde_json::from_slice` at the type `Vec<Vec<u8>>`: the value read from
/// the text, or the error. The result depends on the text alone, and
/// `json_rows` names it.
#[verifier::external_body]
pub(crate) fn parse_rows(text: &[u8]) -> (parsed: Result<Vec<Vec<u8>>, serde_json::Error>)
    ensures
        match parsed {
            Ok(rows) => json_rows(text@) == Some(rows.deep_view()),
            Err(_) => json_rows(text@) is None,
        },
{
    serde_json::from_slice::<Vec<Vec<u8>>>(text)
}

/// `rayon`'s `par_iter_mut().enumerate().for_each(..)` on the cells of a
/// buffer: the closure runs once for each index, with the cell at that
/// index, on the threads of rayon's pool, and the call returns when all
/// have run. The closure is `GameOfLife::write_next_tick_state`, which
/// leaves in the cell the next state of the cell at that index, so the
/// buffer ends as the cells of the next generation.
#[verifier::external_body]
pub(crate) fn par_write_next_tick_state(
    policy: BoundaryPolicy,
    matrix: &Matrix,
    cells: &mut Vec<u8>,
)
    requires
        matrix.wf(),
        old(cells).len() == matrix.rows * matrix.cols,
    ensures
        final(cells)@ == next_cells(matrix@, policy),
{
    cells.par_iter_mut().enumerate().for_each(
        |(idx, value)| {
            GameOfLife::write_next_tick_state(policy, matrix, idx, value);
        },
    );
}

} // verus!
