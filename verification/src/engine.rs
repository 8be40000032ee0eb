//! The execution engine: one machine state, one transition per instruction.

use vstd::prelude::*;
use crate::program::{lemma_targets_are_mutual, resolves, Instruction};
use crate::tape::{
    cell_decrement, cell_increment, cell_input, cell_next, cell_prev, cell_print, cell_value,
    decremented, incremented, materialized, reach_left, reach_right, tape_cell, tape_store,
};

verus! {

/// Why a run was given up.
#[derive(Clone, Copy, Debug, PartialEq, Eq, Structural)]
pub enum RunError {
    /// An input instruction was reached and the input holds no further byte.
    InputExhausted,
}

impl RunError {
    /// What went wrong, in words.
    pub fn message(&self) -> (text: &'static str)
        ensures
            text@ == "Input requested but the input stream is exhausted"@,
    {
        match self {
            RunError::InputExhausted => "Input requested but the input stream is exhausted",
        }
    }
}

/// The state of one run: the tape, the data pointer and the instruction
/// pointer.
#[derive(Debug)]
pub struct Machine {
    /// The cells at positions `-1, -2, ..`, in that order.
    pub before_cells: Vec<u8>,
    /// The cells at positions `0, 1, ..`, in that order.
    pub after_cells: Vec<u8>,
    /// The position of the active cell. It stays on the tape, and no vector
    /// has as many cells as this type has values, so it never overflows.
    pub cell_pointer: i128,
    /// The index of the instruction that runs next.
    pub inst_pointer: usize,
}

/// A machine as a mathematical value.
pub struct MachineState {
    /// The cells at positions `-1, -2, ..`, in that order.
    pub before_cells: Seq<u8>,
    /// The cells at positions `0, 1, ..`, in that order.
    pub after_cells: Seq<u8>,
    /// The position of the active cell.
    pub cell_pointer: int,
    /// The index of the instruction that runs next.
    pub inst_pointer: int,
}

impl MachineState {
    /// The pointer stands on a cell that the tape holds.
    pub open spec fn well_formed(self) -> bool {
        &&& materialized(self.before_cells, self.after_cells, self.cell_pointer)
        &&& 0 <= self.inst_pointer
    }

    /// The byte in the active cell.
    pub open spec fn cell(self) -> u8 {
        tape_cell(self.before_cells, self.after_cells, self.cell_pointer)
    }

    /// The state with `value` in the active cell.
    pub open spec fn store(self, value: u8) -> MachineState {
        let cells = tape_store(self.before_cells, self.after_cells, self.cell_pointer, value);
        MachineState { before_cells: cells.0, after_cells: cells.1, ..self }
    }

    /// The state with the instruction pointer at `target`.
    pub open spec fn goto(self, target: int) -> MachineState {
        MachineState { inst_pointer: target, ..self }
    }

    /// The state with the data pointer one cell further right.
    pub open spec fn right(self) -> MachineState {
        MachineState {
            after_cells: reach_right(self.after_cells, self.cell_pointer + 1),
            cell_pointer: self.cell_pointer + 1,
            ..self
        }
    }

    /// The state with the data pointer one cell further left.
    pub open spec fn left(self) -> MachineState {
        MachineState {
            before_cells: reach_left(self.before_cells, self.cell_pointer - 1),
            cell_pointer: self.cell_pointer - 1,
            ..self
        }
    }
}

impl View for Machine {
    type V = MachineState;

    open spec fn view(&self) -> MachineState {
        MachineState {
            before_cells: self.before_cells@,
            after_cells: self.after_cells@,
            cell_pointer: self.cell_pointer as int,
            inst_pointer: self.inst_pointer as int,
        }
    }
}

/// The state in which every run starts: both pointers at zero, and the cell
/// at position zero the only one that the tape holds.
pub open spec fn fresh_machine() -> MachineState {
    MachineState {
        before_cells: Seq::empty(),
        after_cells: seq![0u8],
        cell_pointer: 0,
        inst_pointer: 0,
    }
}

/// The instruction pointer has left the program.
pub open spec fn halted(program: Seq<Instruction>, state: MachineState) -> bool {
    !(0 <= state.inst_pointer < program.len())
}

/// The instruction that runs next reads a byte of input.
pub open spec fn awaits_input(program: Seq<Instruction>, state: MachineState) -> bool {
    !halted(program, state) && program[state.inst_pointer] == Instruction::Input
}

/// The byte that the next instruction prints, if it prints.
pub open spec fn emitted(program: Seq<Instruction>, state: MachineState) -> Option<u8> {
    if !halted(program, state) && program[state.inst_pointer] == Instruction::Print {
        Some(state.cell())
    } else {
        None
    }
}

/// One transition of the machine. `byte` is the next byte of input, if there
/// is one; only an input instruction looks at it. A halted machine stays as
/// it is, and so does one that waits for input while there is none.
pub open spec fn advance(program: Seq<Instruction>, state: MachineState, byte: Option<u8>)
    -> MachineState {
    if halted(program, state) {
        state
    } else {
        let next = state.inst_pointer + 1;
        match program[state.inst_pointer] {
            Instruction::Increment => state.store(incremented(state.cell())).goto(next),
            Instruction::Decrement => state.store(decremented(state.cell())).goto(next),
            Instruction::MoveRight => state.right().goto(next),
            Instruction::MoveLeft => state.left().goto(next),
            Instruction::Print => state.goto(next),
            Instruction::Input => match byte {
                Some(value) => state.store(value).goto(next),
                None => state,
            },
            Instruction::LoopOpen(target) => if state.cell() == 0 {
                state.goto(target as int)
            } else {
                state.goto(next)
            },
            Instruction::LoopClose(target) => if state.cell() != 0 {
                state.goto(target as int)
            } else {
                state.goto(next)
            },
        }
    }
}

/// A move into territory that the pointer has not been to arrives at a cell
/// that reads zero, whichever way it goes, and the pointer stands on a cell
/// that the tape holds afterwards.
pub proof fn lemma_new_cell_reads_zero(state: MachineState)
    requires
        state.well_formed(),
    ensures
        state.right().well_formed(),
        state.left().well_formed(),
        !materialized(state.before_cells, state.after_cells, state.cell_pointer + 1)
            ==> state.right().cell() == 0,
        !materialized(state.before_cells, state.after_cells, state.cell_pointer - 1)
            ==> state.left().cell() == 0,
{
}

/// A transition keeps the pointer on a cell that the tape holds.
pub proof fn lemma_advance_keeps_well_formed(
    program: Seq<Instruction>,
    state: MachineState,
    byte: Option<u8>,
)
    requires
        state.well_formed(),
    ensures
        advance(program, state, byte).well_formed(),
{
}

impl Machine {
    /// A machine at the start of a run.
    pub fn new() -> (machine: Machine)
        ensures
            machine@ == fresh_machine(),
            machine@.well_formed(),
    {
        let mut after_cells: Vec<u8> = Vec::new();
        after_cells.push(0);
        Machine { before_cells: Vec::new(), after_cells, cell_pointer: 0, inst_pointer: 0 }
    }

    /// Whether the data pointer stands on a cell that the tape holds.
    pub fn is_well_formed(&self) -> (ok: bool)
        ensures
            ok == self@.well_formed(),
    {
        assert(self.after_cells@.len() == self.after_cells.len());
        assert(self.before_cells@.len() == self.before_cells.len());
        if self.cell_pointer >= 0 {
            self.cell_pointer < self.after_cells.len() as i128
        } else {
            -(self.cell_pointer + 1) < self.before_cells.len() as i128
        }
    }

    /// Whether the instruction pointer has left the program.
    pub fn is_halted(&self, inst: &Vec<Instruction>) -> (done: bool)
        ensures
            done == halted(inst@, self@),
    {
        self.inst_pointer >= inst.len()
    }

    /// Whether the instruction that runs next reads a byte of input.
    pub fn wants_input(&self, inst: &Vec<Instruction>) -> (wanted: bool)
        ensures
            wanted == awaits_input(inst@, self@),
    {
        if self.inst_pointer < inst.len() {
            match inst[self.inst_pointer] {
                Instruction::Input => true,
                _ => false,
            }
        } else {
            false
        }
    }
}

/// Runs the instruction under the instruction pointer.
///
/// `byte` is the next byte of input, where there is one. What a print
/// instruction emits is appended to `output`. An input instruction that finds
/// no byte fails and leaves the machine as it was.
pub fn step(inst: &Vec<Instruction>, machine: &mut Machine, byte: Option<u8>, output: &mut Vec<u8>)
    -> (result: Result<(), RunError>)
    requires
        old(machine)@.well_formed(),
    ensures
        final(machine)@ == advance(inst@, old(machine)@, byte),
        final(machine)@.well_formed(),
        final(output)@ == match emitted(inst@, old(machine)@) {
            Some(value) => old(output)@.push(value),
            None => old(output)@,
        },
        result is Err <==> awaits_input(inst@, old(machine)@) && byte is None,
        result matches Err(error) ==> error == RunError::InputExhausted,
{
    if machine.inst_pointer >= inst.len() {
        return Ok(());
    }
    assert(machine.after_cells@.len() == machine.after_cells.len());
    assert(machine.before_cells@.len() == machine.before_cells.len());
    match inst[machine.inst_pointer] {
        Instruction::Increment => {
            cell_increment(machine.cell_pointer, &mut machine.before_cells, &mut machine.after_cells);
        },
        Instruction::Decrement => {
            cell_decrement(machine.cell_pointer, &mut machine.before_cells, &mut machine.after_cells);
        },
        Instruction::MoveRight => {
            cell_next(&mut machine.cell_pointer, &mut machine.after_cells);
        },
        Instruction::MoveLeft => {
            cell_prev(&mut machine.cell_pointer, &mut machine.before_cells);
        },
        Instruction::Print => {
            cell_print(machine.cell_pointer, &machine.before_cells, &machine.after_cells, output);
        },
        Instruction::Input => {
            match byte {
                Some(value) => {
                    cell_input(
                        machine.cell_pointer,
                        &mut machine.before_cells,
                        &mut machine.after_cells,
                        value,
                    );
                },
                None => {
                    return Err(RunError::InputExhausted);
                },
            }
        },
        Instruction::LoopOpen(target) => {
            if cell_value(machine.cell_pointer, &machine.before_cells, &machine.after_cells) == 0 {
                machine.inst_pointer = target;
                return Ok(());
            }
        },
        Instruction::LoopClose(target) => {
            if cell_value(machine.cell_pointer, &machine.before_cells, &machine.after_cells) != 0 {
                machine.inst_pointer = target;
                return Ok(());
            }
        },
    }
    machine.inst_pointer += 1;
    Ok(())
}

/// A run in progress: the machine, how many bytes of input it has read, and
/// everything printed so far.
pub struct RunState {
    /// The machine.
    pub machine: MachineState,
    /// The number of input bytes read so far.
    pub consumed: int,
    /// The bytes printed so far, behind what the output held before the run.
    pub output: Seq<u8>,
}

/// The start of a run whose output goes behind `output`.
pub open spec fn fresh_run(output: Seq<u8>) -> RunState {
    RunState { machine: fresh_machine(), consumed: 0, output }
}

/// The byte that the input hands to the next instruction: the first unread
/// one, where that instruction reads input and a byte is left.
pub open spec fn offered(program: Seq<Instruction>, input: Seq<u8>, run: RunState) -> Option<u8> {
    if awaits_input(program, run.machine) && 0 <= run.consumed < input.len() {
        Some(input[run.consumed])
    } else {
        None
    }
}

/// The next instruction reads input, and none is left.
pub open spec fn starved(program: Seq<Instruction>, input: Seq<u8>, run: RunState) -> bool {
    awaits_input(program, run.machine) && offered(program, input, run) is None
}

/// The run is over: the program has ended, or it asks for input that is not
/// there.
pub open spec fn finished(program: Seq<Instruction>, input: Seq<u8>, run: RunState) -> bool {
    halted(program, run.machine) || starved(program, input, run)
}

/// One step of a run. A run that is over stays as it is.
pub open spec fn run_step(program: Seq<Instruction>, input: Seq<u8>, run: RunState) -> RunState {
    RunState {
        machine: advance(program, run.machine, offered(program, input, run)),
        consumed: if offered(program, input, run) is Some {
            run.consumed + 1
        } else {
            run.consumed
        },
        output: match emitted(program, run.machine) {
            Some(value) => run.output.push(value),
            None => run.output,
        },
    }
}

/// The run after `steps` further steps.
pub open spec fn run_for(program: Seq<Instruction>, input: Seq<u8>, run: RunState, steps: nat)
    -> RunState
    decreases steps,
{
    if steps == 0 {
        run
    } else {
        run_for(program, input, run_step(program, input, run), (steps - 1) as nat)
    }
}

/// The run is over after some number of steps.
pub open spec fn terminates(program: Seq<Instruction>, input: Seq<u8>, run: RunState) -> bool {
    exists|steps: nat| finished(program, input, #[trigger] run_for(program, input, run, steps))
}

/// The state in which the run is over. It is the same for every number of
/// steps that is large enough; see `lemma_outcome`.
pub open spec fn outcome(program: Seq<Instruction>, input: Seq<u8>, run: RunState) -> RunState {
    run_for(
        program,
        input,
        run,
        choose|steps: nat| finished(program, input, #[trigger] run_for(program, input, run, steps)),
    )
}

/// One more step at the end of a run is one more step of the run.
pub proof fn lemma_run_for_next(
    program: Seq<Instruction>,
    input: Seq<u8>,
    run: RunState,
    steps: nat,
)
    ensures
        run_for(program, input, run, steps + 1) == run_step(
            program,
            input,
            run_for(program, input, run, steps),
        ),
    decreases steps,
{
    let second = run_step(program, input, run);
    assert(run_for(program, input, run, steps + 1) == run_for(program, input, second, steps));
    if steps > 0 {
        lemma_run_for_next(program, input, second, (steps - 1) as nat);
        assert(run_for(program, input, run, steps) == run_for(
            program,
            input,
            second,
            (steps - 1) as nat,
        ));
    } else {
        assert(run_for(program, input, second, 0) == second);
    }
}

/// A run that is over does not move any more.
pub proof fn lemma_finished_stays(
    program: Seq<Instruction>,
    input: Seq<u8>,
    run: RunState,
    steps: nat,
    later: nat,
)
    requires
        finished(program, input, run_for(program, input, run, steps)),
        steps <= later,
    ensures
        run_for(program, input, run, later) == run_for(program, input, run, steps),
    decreases later,
{
    if steps < later {
        lemma_finished_stays(program, input, run, steps, (later - 1) as nat);
        lemma_run_for_next(program, input, run, (later - 1) as nat);
    }
}

/// Whatever number of steps ends a run, it ends in the same state.
pub proof fn lemma_outcome(program: Seq<Instruction>, input: Seq<u8>, run: RunState, steps: nat)
    requires
        finished(program, input, run_for(program, input, run, steps)),
    ensures
        terminates(program, input, run),
        outcome(program, input, run) == run_for(program, input, run, steps),
        finished(program, input, outcome(program, input, run)),
{
    let chosen = choose|n: nat| finished(program, input, #[trigger] run_for(program, input, run, n));
    if chosen <= steps {
        lemma_finished_stays(program, input, run, chosen, steps);
    } else {
        lemma_finished_stays(program, input, run, steps, chosen);
    }
}

/// A run takes nothing back: what is printed stays, and the output only
/// grows; the bytes read are counted upwards and never past the end of the
/// input; the pointer stays on the tape.
pub proof fn lemma_run_only_moves_on(
    program: Seq<Instruction>,
    input: Seq<u8>,
    run: RunState,
    steps: nat,
)
    requires
        run.machine.well_formed(),
        0 <= run.consumed <= input.len(),
    ensures
        run_for(program, input, run, steps).machine.well_formed(),
        run.output.is_prefix_of(run_for(program, input, run, steps).output),
        run.consumed <= run_for(program, input, run, steps).consumed <= input.len(),
    decreases steps,
{
    if steps > 0 {
        let second = run_step(program, input, run);
        lemma_run_only_moves_on(program, input, second, (steps - 1) as nat);
        assert(run.output.is_prefix_of(second.output));
    }
}

/// A loop whose guard cell is zero when the loop is reached is left without
/// its body having run: the first step leads to the closing bracket, the
/// second one behind it, and neither touches tape, input or output.
pub proof fn lemma_zero_guard_skips_body(
    text: Seq<char>,
    program: Seq<Instruction>,
    input: Seq<u8>,
    run: RunState,
)
    requires
        resolves(text, program),
        !halted(program, run.machine),
        program[run.machine.inst_pointer] is LoopOpen,
        run.machine.cell() == 0,
    ensures
        ({
            let close = program[run.machine.inst_pointer]->LoopOpen_0 as int;
            &&& run.machine.inst_pointer < close < program.len()
            &&& run_for(program, input, run, 1) == RunState {
                machine: run.machine.goto(close),
                ..run
            }
            &&& run_for(program, input, run, 2) == RunState {
                machine: run.machine.goto(close + 1),
                ..run
            }
        }),
{
    lemma_targets_are_mutual(text, program, run.machine.inst_pointer);
    let close = program[run.machine.inst_pointer]->LoopOpen_0 as int;
    let first = run_step(program, input, run);
    assert(first == RunState { machine: run.machine.goto(close), ..run });
    let second = run_step(program, input, first);
    assert(second == RunState { machine: run.machine.goto(close + 1), ..run });
    assert(run_for(program, input, first, 0) == first);
    assert(run_for(program, input, second, 0) == second);
    assert(run_for(program, input, first, 1) == second);
}

/// The run that a machine, a count of bytes read and an output make up.
spec fn snapshot(machine: MachineState, consumed: usize, output: Seq<u8>) -> RunState {
    RunState { machine, consumed: consumed as int, output }
}

/// Runs a program from a fresh machine until it ends, reading from `input`
/// and appending what it prints to `output`.
///
/// Returns the machine as the program left it, or `InputExhausted` where the
/// program asked for a byte behind the end of `input`; what was printed up to
/// then stays in `output`. A program that never ends has no result, so the
/// caller has to know that this one ends.
pub fn execute(inst: &Vec<Instruction>, input: &[u8], output: &mut Vec<u8>) -> (result: Result<
    Machine,
    RunError,
>)
    requires
        terminates(inst@, input@, fresh_run(old(output)@)),
    ensures
        ({
            let end = outcome(inst@, input@, fresh_run(old(output)@));
            &&& final(output)@ == end.output
            &&& result is Ok <==> halted(inst@, end.machine)
            &&& result is Err <==> starved(inst@, input@, end)
            &&& result matches Ok(machine) ==> machine@ == end.machine && machine@.well_formed()
            &&& result matches Err(error) ==> error == RunError::InputExhausted
        }),
{
    let mut machine = Machine::new();
    let mut consumed: usize = 0;
    let ghost start = fresh_run(output@);
    let ghost mut done: nat = 0;
    let ghost mut fuel: nat = choose|steps: nat|
        finished(inst@, input@, #[trigger] run_for(inst@, input@, start, steps));
    while !machine.is_halted(inst)
        invariant
            start == fresh_run(old(output)@),
            machine@.well_formed(),
            consumed <= input@.len(),
            snapshot(machine@, consumed, output@) == run_for(inst@, input@, start, done),
            finished(
                inst@,
                input@,
                run_for(inst@, input@, snapshot(machine@, consumed, output@), fuel),
            ),
        decreases fuel,
    {
        let ghost now = snapshot(machine@, consumed, output@);
        let byte = if consumed < input.len() && machine.wants_input(inst) {
            Some(input[consumed])
        } else {
            None
        };
        assert(byte == offered(inst@, input@, now));
        match step(inst, &mut machine, byte, output) {
            Ok(()) => {
                if byte.is_some() {
                    consumed += 1;
                }
                proof {
                    lemma_run_for_next(inst@, input@, start, done);
                    done = done + 1;
                    fuel = (fuel - 1) as nat;
                }
            },
            Err(error) => {
                proof {
                    lemma_outcome(inst@, input@, start, done);
                }
                return Err(error);
            },
        }
    }
    proof {
        lemma_outcome(inst@, input@, start, done);
    }
    Ok(machine)
}

} // verus!
