//! The loader: from source text to a program with resolved loop targets.

use vstd::prelude::*;
use crate::program::{
    balanced, bracket_weight, commands, encodes, is_command, nesting, paired, resolves, verdict,
    Instruction, ParseError,
};

verus! {

/// The `[` at `open` is not closed anywhere in `text`, and `depth` loops are
/// open in front of it.
spec fn awaits_close(text: Seq<char>, open: int, depth: int) -> bool {
    &&& 0 <= open < text.len()
    &&& text[open] == '['
    &&& nesting(text, open) == depth
    &&& forall|k: int| open < k <= text.len() ==> #[trigger] nesting(text, k) > depth
}

/// Position `at` is on the stack of open loops.
spec fn is_pending(pending: Seq<usize>, at: int) -> bool {
    exists|d: int| 0 <= d < pending.len() && #[trigger] pending[d] == at
}

/// The state of the loader after the command text `text`: `pending` lists the
/// loops that are still open, outermost first, and every other command
/// already has its final instruction.
spec fn partly_resolved(text: Seq<char>, program: Seq<Instruction>, pending: Seq<usize>) -> bool {
    &&& program.len() == text.len()
    &&& pending.len() == nesting(text, text.len() as int)
    &&& forall|d: int| 0 <= d < pending.len() ==> awaits_close(text, #[trigger] pending[d] as int, d)
    &&& forall|i: int|
        0 <= i < text.len() ==> encodes(text, i, #[trigger] program[i]) || is_pending(pending, i)
}

/// A character appended to a text leaves the nesting in front of it as it was.
proof fn lemma_nesting_push(text: Seq<char>, c: char, upto: int)
    requires
        upto <= text.len(),
    ensures
        nesting(text.push(c), upto) == nesting(text, upto),
    decreases upto,
{
    if upto > 0 {
        lemma_nesting_push(text, c, upto - 1);
    }
}

/// The same for every position at once, and the nesting behind the new
/// character.
proof fn lemma_nesting_push_all(text: Seq<char>, c: char)
    ensures
        forall|k: int| k <= text.len() ==> #[trigger] nesting(text.push(c), k) == nesting(text, k),
        nesting(text.push(c), (text.len() + 1) as int) == nesting(text, text.len() as int) + bracket_weight(
            c,
        ),
{
    assert forall|k: int| k <= text.len() implies #[trigger] nesting(text.push(c), k) == nesting(
        text,
        k,
    ) by {
        lemma_nesting_push(text, c, k);
    }
    lemma_nesting_push(text, c, text.len() as int);
}

/// What an instruction stands for does not change when the text grows.
proof fn lemma_encodes_push(text: Seq<char>, c: char, at: int, instruction: Instruction)
    requires
        0 <= at < text.len(),
        encodes(text, at, instruction),
    ensures
        encodes(text.push(c), at, instruction),
{
    lemma_nesting_push_all(text, c);
}

/// `instruction` is what the character `c` stands for, and `c` is no bracket.
spec fn plain(c: char, instruction: Instruction) -> bool {
    match instruction {
        Instruction::Increment => c == '+',
        Instruction::Decrement => c == '-',
        Instruction::MoveRight => c == '>',
        Instruction::MoveLeft => c == '<',
        Instruction::Print => c == '.',
        Instruction::Input => c == ',',
        Instruction::LoopOpen(_) => false,
        Instruction::LoopClose(_) => false,
    }
}

/// Loading a command that is no bracket.
proof fn lemma_load_plain(
    text: Seq<char>,
    program: Seq<Instruction>,
    pending: Seq<usize>,
    c: char,
    instruction: Instruction,
)
    requires
        partly_resolved(text, program, pending),
        plain(c, instruction),
    ensures
        partly_resolved(text.push(c), program.push(instruction), pending),
{
    let grown = text.push(c);
    let loaded = program.push(instruction);
    lemma_nesting_push_all(text, c);
    assert forall|i: int| 0 <= i < grown.len() implies encodes(grown, i, #[trigger] loaded[i])
        || is_pending(pending, i) by {
        if i < text.len() {
            assert(loaded[i] == program[i]);
            if encodes(text, i, program[i]) {
                lemma_encodes_push(text, c, i, program[i]);
            }
        }
    }
}

/// Loading a `[`: it goes on the stack, with a target that is not final yet.
proof fn lemma_load_open(
    text: Seq<char>,
    program: Seq<Instruction>,
    pending: Seq<usize>,
    at: usize,
    placeholder: usize,
)
    requires
        partly_resolved(text, program, pending),
        at == text.len(),
    ensures
        partly_resolved(
            text.push('['),
            program.push(Instruction::LoopOpen(placeholder)),
            pending.push(at),
        ),
{
    let grown = text.push('[');
    let loaded = program.push(Instruction::LoopOpen(placeholder));
    let stacked = pending.push(at);
    lemma_nesting_push_all(text, '[');
    assert forall|d: int| 0 <= d < stacked.len() implies awaits_close(
        grown,
        #[trigger] stacked[d] as int,
        d,
    ) by {
        if d < pending.len() {
            assert(awaits_close(text, pending[d] as int, d));
        }
    }
    assert forall|i: int| 0 <= i < grown.len() implies encodes(grown, i, #[trigger] loaded[i])
        || is_pending(stacked, i) by {
        if i < text.len() {
            assert(loaded[i] == program[i]);
            if encodes(text, i, program[i]) {
                lemma_encodes_push(text, '[', i, program[i]);
            } else {
                let d = choose|d: int| 0 <= d < pending.len() && #[trigger] pending[d] == i;
                assert(stacked[d] == i);
            }
        } else {
            assert(stacked[pending.len() as int] == i);
        }
    }
}

/// Loading a `]`: the innermost open `[` leaves the stack, and the two
/// brackets receive each other's position.
proof fn lemma_load_close(
    text: Seq<char>,
    program: Seq<Instruction>,
    pending: Seq<usize>,
    at: usize,
)
    requires
        partly_resolved(text, program, pending),
        pending.len() > 0,
        at == text.len(),
    ensures
        0 <= pending.last() < program.len(),
        partly_resolved(
            text.push(']'),
            program.update(pending.last() as int, Instruction::LoopOpen(at)).push(
                Instruction::LoopClose(pending.last()),
            ),
            pending.drop_last(),
        ),
{
    let open = pending.last();
    let grown = text.push(']');
    let loaded = program.update(open as int, Instruction::LoopOpen(at)).push(
        Instruction::LoopClose(open),
    );
    let rest = pending.drop_last();
    lemma_nesting_push_all(text, ']');
    assert(awaits_close(text, pending[pending.len() - 1] as int, pending.len() - 1));
    assert(paired(grown, open as int, at as int));
    assert forall|d: int| 0 <= d < rest.len() implies awaits_close(
        grown,
        #[trigger] rest[d] as int,
        d,
    ) by {
        assert(awaits_close(text, pending[d] as int, d));
    }
    assert forall|i: int| 0 <= i < grown.len() implies encodes(grown, i, #[trigger] loaded[i])
        || is_pending(rest, i) by {
        if i < text.len() && i != open {
            assert(loaded[i] == program[i]);
            if encodes(text, i, program[i]) {
                lemma_encodes_push(text, ']', i, program[i]);
            } else {
                let d = choose|d: int| 0 <= d < pending.len() && #[trigger] pending[d] == i;
                assert(rest[d] == i);
            }
        }
    }
}

/// The commands of a prefix that is one character longer.
proof fn lemma_commands_step(source: Seq<char>, n: int)
    requires
        0 <= n < source.len(),
    ensures
        commands(source.take(n + 1)) == if is_command(source[n]) {
            commands(source.take(n)).push(source[n])
        } else {
            commands(source.take(n))
        },
{
    assert(source.take(n + 1) =~= source.take(n).push(source[n]));
    source.take(n).lemma_filter_push(source[n], |c: char| is_command(c));
}

/// Loads a program: keeps the command characters of `file_contents`, in
/// order, and gives every bracket the position of the bracket it is paired
/// with. A text whose brackets do not match is turned down.
pub fn validate_code(file_contents: String) -> (result: Result<Vec<Instruction>, ParseError>)
    ensures
        result is Ok <==> balanced(file_contents@),
        result matches Ok(program) ==> resolves(commands(file_contents@), program@),
        result matches Err(error) ==> verdict(file_contents@) == Some(error),
{
    let mut instructions: Vec<Instruction> = Vec::new();
    let mut loop_nesting: Vec<usize> = Vec::new();
    proof {
        assert(file_contents@.take(0) =~= Seq::<char>::empty());
        reveal(Seq::filter);
    }
    for ch in it: file_contents.as_str().chars()
        invariant
            it.seq() == file_contents@,
            forall|k: int| 0 <= k <= it.index() ==> #[trigger] nesting(file_contents@, k) >= 0,
            loop_nesting@.len() == nesting(file_contents@, it.index()),
            partly_resolved(
                commands(file_contents@.take(it.index())),
                instructions@,
                loop_nesting@,
            ),
    {
        let ghost text = commands(file_contents@.take(it.index()));
        proof {
            lemma_commands_step(file_contents@, it.index());
        }
        match ch {
            '+' => {
                proof {
                    lemma_load_plain(text, instructions@, loop_nesting@, ch, Instruction::Increment);
                }
                instructions.push(Instruction::Increment);
            },
            '-' => {
                proof {
                    lemma_load_plain(text, instructions@, loop_nesting@, ch, Instruction::Decrement);
                }
                instructions.push(Instruction::Decrement);
            },
            '<' => {
                proof {
                    lemma_load_plain(text, instructions@, loop_nesting@, ch, Instruction::MoveLeft);
                }
                instructions.push(Instruction::MoveLeft);
            },
            '>' => {
                proof {
                    lemma_load_plain(text, instructions@, loop_nesting@, ch, Instruction::MoveRight);
                }
                instructions.push(Instruction::MoveRight);
            },
            '.' => {
                proof {
                    lemma_load_plain(text, instructions@, loop_nesting@, ch, Instruction::Print);
                }
                instructions.push(Instruction::Print);
            },
            ',' => {
                proof {
                    lemma_load_plain(text, instructions@, loop_nesting@, ch, Instruction::Input);
                }
                instructions.push(Instruction::Input);
            },
            '[' => {
                let at: usize = instructions.len();
                proof {
                    lemma_load_open(text, instructions@, loop_nesting@, at, 0);
                }
                instructions.push(Instruction::LoopOpen(0));
                loop_nesting.push(at);
            },
            ']' => {
                let at: usize = instructions.len();
                proof {
                    if loop_nesting@.len() > 0 {
                        lemma_load_close(text, instructions@, loop_nesting@, at);
                    }
                }
                match loop_nesting.pop() {
                    Some(open) => {
                        instructions[open] = Instruction::LoopOpen(at);
                        instructions.push(Instruction::LoopClose(open));
                    },
                    None => {
                        assert(nesting(file_contents@, it.index() + 1) < 0);
                        return Err(ParseError::UnmatchedClose);
                    },
                }
            },
            _ => {},
        }
    }
    assert(file_contents@.take(file_contents@.len() as int) =~= file_contents@);
    if loop_nesting.len() != 0 {
        return Err(ParseError::UnmatchedOpen);
    }
    Ok(instructions)
}

} // verus!
