//! The tape: byte cells addressed by a signed position.
//!
//! Cells at positions `0, 1, 2, ..` live in one vector, cells at positions
//! `-1, -2, ..` in a second one (position `-k` at index `k - 1`), so that the
//! tape can grow at either end by a plain `push`. A cell that neither vector
//! holds yet reads as zero.

use vstd::prelude::*;

verus! {

/// The byte that the tape holds at position `at`: the stored one where a
/// vector holds that position, zero elsewhere.
pub open spec fn tape_cell(before_cells: Seq<u8>, after_cells: Seq<u8>, at: int) -> u8 {
    if 0 <= at < after_cells.len() {
        after_cells[at]
    } else if -before_cells.len() <= at < 0 {
        before_cells[-at - 1]
    } else {
        0
    }
}

/// Whether one of the two vectors holds the cell at position `at`.
pub open spec fn materialized(before_cells: Seq<u8>, after_cells: Seq<u8>, at: int) -> bool {
    -before_cells.len() <= at < after_cells.len()
}

/// The two vectors after `value` has been written to position `at`.
pub open spec fn tape_store(before_cells: Seq<u8>, after_cells: Seq<u8>, at: int, value: u8) -> (
    Seq<u8>,
    Seq<u8>,
) {
    if at >= 0 {
        (before_cells, after_cells.update(at, value))
    } else {
        (before_cells.update(-at - 1, value), after_cells)
    }
}

/// The right-hand vector once the pointer has arrived at `at`: one zero cell
/// longer where `at` is the first position behind it.
pub open spec fn reach_right(after_cells: Seq<u8>, at: int) -> Seq<u8> {
    if at == after_cells.len() {
        after_cells.push(0)
    } else {
        after_cells
    }
}

/// The left-hand vector once the pointer has arrived at `at`: one zero cell
/// longer where `at` is the first position in front of it.
pub open spec fn reach_left(before_cells: Seq<u8>, at: int) -> Seq<u8> {
    if -at - 1 == before_cells.len() {
        before_cells.push(0)
    } else {
        before_cells
    }
}

/// A cell plus one, on eight bits.
pub open spec fn incremented(value: u8) -> u8 {
    ((value + 1) % 256) as u8
}

/// A cell minus one, on eight bits.
pub open spec fn decremented(value: u8) -> u8 {
    ((value - 1) % 256) as u8
}

/// Reads the cell under the pointer.
pub fn cell_value(cell_pointer: i128, before_cells: &Vec<u8>, after_cells: &Vec<u8>) -> (value: u8)
    requires
        materialized(before_cells@, after_cells@, cell_pointer as int),
    ensures
        value == tape_cell(before_cells@, after_cells@, cell_pointer as int),
{
    assert(after_cells@.len() == after_cells.len() && before_cells@.len() == before_cells.len());
    if cell_pointer >= 0 {
        after_cells[cell_pointer as usize]
    } else {
        before_cells[(-(cell_pointer + 1)) as usize]
    }
}

/// Writes `value` to the cell under the pointer.
pub fn cell_input(
    cell_pointer: i128,
    before_cells: &mut Vec<u8>,
    after_cells: &mut Vec<u8>,
    value: u8,
)
    requires
        materialized(old(before_cells)@, old(after_cells)@, cell_pointer as int),
    ensures
        (final(before_cells)@, final(after_cells)@) == tape_store(
            old(before_cells)@,
            old(after_cells)@,
            cell_pointer as int,
            value,
        ),
{
    assert(after_cells@.len() == after_cells.len() && before_cells@.len() == before_cells.len());
    if cell_pointer >= 0 {
        after_cells[cell_pointer as usize] = value;
    } else {
        before_cells[(-(cell_pointer + 1)) as usize] = value;
    }
}

/// Adds one to the cell under the pointer; 255 becomes 0.
pub fn cell_increment(cell_pointer: i128, before_cells: &mut Vec<u8>, after_cells: &mut Vec<u8>)
    requires
        materialized(old(before_cells)@, old(after_cells)@, cell_pointer as int),
    ensures
        (final(before_cells)@, final(after_cells)@) == tape_store(
            old(before_cells)@,
            old(after_cells)@,
            cell_pointer as int,
            incremented(tape_cell(old(before_cells)@, old(after_cells)@, cell_pointer as int)),
        ),
{
    let value: u8 = cell_value(cell_pointer, before_cells, after_cells);
    cell_input(cell_pointer, before_cells, after_cells, value.wrapping_add(1));
}

/// Takes one from the cell under the pointer; 0 becomes 255.
pub fn cell_decrement(cell_pointer: i128, before_cells: &mut Vec<u8>, after_cells: &mut Vec<u8>)
    requires
        materialized(old(before_cells)@, old(after_cells)@, cell_pointer as int),
    ensures
        (final(before_cells)@, final(after_cells)@) == tape_store(
            old(before_cells)@,
            old(after_cells)@,
            cell_pointer as int,
            decremented(tape_cell(old(before_cells)@, old(after_cells)@, cell_pointer as int)),
        ),
{
    let value: u8 = cell_value(cell_pointer, before_cells, after_cells);
    cell_input(cell_pointer, before_cells, after_cells, value.wrapping_sub(1));
}

/// Moves the pointer one cell to the right. Where it arrives at the first
/// position behind the right-hand vector, that cell is added, holding zero.
pub fn cell_next(cell_pointer: &mut i128, after_cells: &mut Vec<u8>)
    requires
        *old(cell_pointer) < i128::MAX,
    ensures
        *final(cell_pointer) == *old(cell_pointer) + 1,
        final(after_cells)@ == reach_right(old(after_cells)@, *old(cell_pointer) + 1),
{
    *cell_pointer += 1;
    if *cell_pointer >= 0 && after_cells.len() as i128 == *cell_pointer {
        after_cells.push(0);
    }
}

/// Moves the pointer one cell to the left. Where it arrives at the first
/// position in front of the left-hand vector, that cell is added, holding
/// zero.
pub fn cell_prev(cell_pointer: &mut i128, before_cells: &mut Vec<u8>)
    requires
        *old(cell_pointer) > i128::MIN,
    ensures
        *final(cell_pointer) == *old(cell_pointer) - 1,
        final(before_cells)@ == reach_left(old(before_cells)@, *old(cell_pointer) - 1),
{
    *cell_pointer = *cell_pointer - 1;
    if *cell_pointer < 0 && before_cells.len() as i128 == -(*cell_pointer + 1) {
        before_cells.push(0);
    }
}

/// Appends the cell under the pointer to the output.
pub fn cell_print(
    cell_pointer: i128,
    before_cells: &Vec<u8>,
    after_cells: &Vec<u8>,
    output: &mut Vec<u8>,
)
    requires
        materialized(before_cells@, after_cells@, cell_pointer as int),
    ensures
        final(output)@ == old(output)@.push(
            tape_cell(before_cells@, after_cells@, cell_pointer as int),
        ),
{
    output.push(cell_value(cell_pointer, before_cells, after_cells));
}

/// Cell arithmetic is arithmetic modulo 256: one more than 255 is 0, one less
/// than 0 is 255, and the two operations undo each other.
pub proof fn lemma_cell_arithmetic_wraps(value: u8)
    ensures
        incremented(value) == if value == 255 { 0 } else { value + 1 },
        decremented(value) == if value == 0 { 255 } else { value - 1 },
        decremented(incremented(value)) == value,
        incremented(decremented(value)) == value,
{
}

/// A write is read back from the cell it went to, leaves every other cell as
/// it was, and adds no cell to the tape.
pub proof fn lemma_store_changes_one_cell(
    before_cells: Seq<u8>,
    after_cells: Seq<u8>,
    at: int,
    value: u8,
    other: int,
)
    requires
        materialized(before_cells, after_cells, at),
    ensures
        ({
            let (before_written, after_written) = tape_store(before_cells, after_cells, at, value);
            &&& tape_cell(before_written, after_written, at) == value
            &&& other != at ==> tape_cell(before_written, after_written, other) == tape_cell(
                before_cells,
                after_cells,
                other,
            )
            &&& materialized(before_written, after_written, other) == materialized(
                before_cells,
                after_cells,
                other,
            )
        }),
{
}

/// A cell that the tape does not hold yet reads as zero, and a move of the
/// pointer changes no cell: the cell that a move adds to the tape holds the
/// zero that was read there before.
pub proof fn lemma_move_changes_no_cell(
    before_cells: Seq<u8>,
    after_cells: Seq<u8>,
    at: int,
    other: int,
)
    ensures
        !materialized(before_cells, after_cells, other) ==> tape_cell(
            before_cells,
            after_cells,
            other,
        ) == 0,
        tape_cell(before_cells, reach_right(after_cells, at), other) == tape_cell(
            before_cells,
            after_cells,
            other,
        ),
        tape_cell(reach_left(before_cells, at), after_cells, other) == tape_cell(
            before_cells,
            after_cells,
            other,
        ),
        materialized(before_cells, after_cells, at - 1) ==> materialized(
            before_cells,
            reach_right(after_cells, at),
            at,
        ),
        materialized(before_cells, after_cells, at + 1) ==> materialized(
            reach_left(before_cells, at),
            after_cells,
            at,
        ),
{
}

} // verus!
