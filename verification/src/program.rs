//! Instructions, and the bracket structure of a program text.

use vstd::prelude::*;

verus! {

/// One command of a loaded program. A loop bracket carries the position,
/// within the program, of the bracket that it is paired with.
#[derive(Clone, Copy, Debug, PartialEq, Eq, Structural)]
pub enum Instruction {
    /// `+`: add one to the active cell.
    Increment,
    /// `-`: take one from the active cell.
    Decrement,
    /// `>`: move the data pointer one cell to the right.
    MoveRight,
    /// `<`: move the data pointer one cell to the left.
    MoveLeft,
    /// `.`: print the active cell.
    Print,
    /// `,`: read one byte of input into the active cell.
    Input,
    /// `[`: where the active cell is zero, go to the `]` at the given
    /// position.
    LoopOpen(usize),
    /// `]`: where the active cell is not zero, go to the `[` at the given
    /// position.
    LoopClose(usize),
}

/// Why a program text was turned down.
#[derive(Clone, Copy, Debug, PartialEq, Eq, Structural)]
pub enum ParseError {
    /// A `]` stands where no `[` is open.
    UnmatchedClose,
    /// The text ends while a `[` is still open.
    UnmatchedOpen,
}

impl ParseError {
    /// What went wrong, in words.
    pub fn message(&self) -> (text: &'static str)
        ensures
            text@ == match *self {
                ParseError::UnmatchedClose => "Found closing bracket with no opening bracket to match"@,
                ParseError::UnmatchedOpen => "EOF reached but closing bracket not found"@,
            },
    {
        match self {
            ParseError::UnmatchedClose => "Found closing bracket with no opening bracket to match",
            ParseError::UnmatchedOpen => "EOF reached but closing bracket not found",
        }
    }
}

/// The eight characters that are commands; every other character is comment.
pub open spec fn is_command(c: char) -> bool {
    c == '+' || c == '-' || c == '<' || c == '>' || c == '.' || c == ',' || c == '[' || c == ']'
}

/// The command characters of a source text, in order.
pub open spec fn commands(source: Seq<char>) -> Seq<char> {
    source.filter(|c: char| is_command(c))
}

/// What a character adds to the number of open loops.
pub open spec fn bracket_weight(c: char) -> int {
    if c == '[' {
        1
    } else if c == ']' {
        -1
    } else {
        0
    }
}

/// The number of `[` minus the number of `]` among the first `upto`
/// characters of `text`.
pub open spec fn nesting(text: Seq<char>, upto: int) -> int
    decreases upto,
{
    if upto <= 0 {
        0
    } else {
        nesting(text, upto - 1) + bracket_weight(text[upto - 1])
    }
}

/// The `[` at `open` and the `]` at `close` belong together: `close` is the
/// first position behind `open` at which the nesting is back to what it was
/// in front of `open`.
pub open spec fn paired(text: Seq<char>, open: int, close: int) -> bool {
    &&& 0 <= open < close < text.len()
    &&& text[open] == '['
    &&& text[close] == ']'
    &&& nesting(text, close + 1) == nesting(text, open)
    &&& forall|k: int| open < k <= close ==> #[trigger] nesting(text, k) > nesting(text, open)
}

/// `instruction` is what the command character at `at` stands for. For a
/// bracket this fixes the target: it is the position of the paired bracket.
pub open spec fn encodes(text: Seq<char>, at: int, instruction: Instruction) -> bool {
    match instruction {
        Instruction::Increment => text[at] == '+',
        Instruction::Decrement => text[at] == '-',
        Instruction::MoveRight => text[at] == '>',
        Instruction::MoveLeft => text[at] == '<',
        Instruction::Print => text[at] == '.',
        Instruction::Input => text[at] == ',',
        Instruction::LoopOpen(target) => paired(text, at, target as int),
        Instruction::LoopClose(target) => paired(text, target as int, at),
    }
}

/// `program` is the command text `text` with every bracket resolved.
pub open spec fn resolves(text: Seq<char>, program: Seq<Instruction>) -> bool {
    &&& program.len() == text.len()
    &&& forall|i: int| 0 <= i < text.len() ==> encodes(text, i, #[trigger] program[i])
}

/// Some `]` of `source` stands where no `[` is open.
pub open spec fn has_unmatched_close(source: Seq<char>) -> bool {
    exists|k: int| 0 <= k <= source.len() && #[trigger] nesting(source, k) < 0
}

/// The brackets of `source` match: no `]` stands where no `[` is open, and
/// no `[` is open at the end.
pub open spec fn balanced(source: Seq<char>) -> bool {
    &&& forall|k: int| 0 <= k <= source.len() ==> #[trigger] nesting(source, k) >= 0
    &&& nesting(source, source.len() as int) == 0
}

/// What is wrong with the brackets of `source`, if anything. A `]` without a
/// `[` is reported before a `[` without a `]`, wherever the two stand.
pub open spec fn verdict(source: Seq<char>) -> Option<ParseError> {
    if has_unmatched_close(source) {
        Some(ParseError::UnmatchedClose)
    } else if nesting(source, source.len() as int) > 0 {
        Some(ParseError::UnmatchedOpen)
    } else {
        None
    }
}

/// A text is accepted exactly when its brackets match.
pub proof fn lemma_balanced_is_accepted(source: Seq<char>)
    ensures
        balanced(source) <==> verdict(source) is None,
{
}

/// A `]` that no `[` in front of it is left open for makes the text fail
/// with `UnmatchedClose`.
pub proof fn lemma_lone_close_is_rejected(source: Seq<char>, at: int)
    requires
        0 <= at < source.len(),
        source[at] == ']',
        nesting(source, at) <= 0,
    ensures
        verdict(source) == Some(ParseError::UnmatchedClose),
{
    assert(nesting(source, at + 1) < 0);
}

/// In a text without an unmatched `]`, a `[` that is never closed makes the
/// text fail with `UnmatchedOpen`.
pub proof fn lemma_lone_open_is_rejected(source: Seq<char>, at: int)
    requires
        !has_unmatched_close(source),
        0 <= at < source.len(),
        source[at] == '[',
        forall|k: int| at < k <= source.len() ==> #[trigger] nesting(source, k) > nesting(source, at),
    ensures
        verdict(source) == Some(ParseError::UnmatchedOpen),
{
    assert(nesting(source, at) >= 0);
    assert(nesting(source, source.len() as int) > nesting(source, at));
}

/// A `[` is paired with one `]` at most.
pub proof fn lemma_close_is_unique(text: Seq<char>, open: int, close: int, other: int)
    requires
        paired(text, open, close),
        paired(text, open, other),
    ensures
        close == other,
{
    if close < other {
        assert(nesting(text, close + 1) > nesting(text, open));
    } else if other < close {
        assert(nesting(text, other + 1) > nesting(text, open));
    }
}

/// A `]` is paired with one `[` at most.
pub proof fn lemma_open_is_unique(text: Seq<char>, open: int, other: int, close: int)
    requires
        paired(text, open, close),
        paired(text, other, close),
    ensures
        open == other,
{
    if open < other {
        assert(nesting(text, other) > nesting(text, open));
    } else if other < open {
        assert(nesting(text, open) > nesting(text, other));
    }
}

/// In a resolved program the two brackets of a loop hold each other's
/// position: following a target twice leads back.
pub proof fn lemma_targets_are_mutual(text: Seq<char>, program: Seq<Instruction>, at: int)
    requires
        resolves(text, program),
        0 <= at < program.len(),
    ensures
        match program[at] {
            Instruction::LoopOpen(target) => {
                &&& at < target < program.len()
                &&& program[target as int] matches Instruction::LoopClose(back) && back == at
            },
            Instruction::LoopClose(target) => {
                &&& target < at
                &&& program[target as int] matches Instruction::LoopOpen(back) && back == at
            },
            _ => true,
        },
{
    match program[at] {
        Instruction::LoopOpen(target) => {
            assert(encodes(text, at, program[at]));
            assert(encodes(text, target as int, program[target as int]));
            match program[target as int] {
                Instruction::LoopClose(back) => {
                    lemma_open_is_unique(text, at, back as int, target as int);
                },
                _ => {},
            }
        },
        Instruction::LoopClose(target) => {
            assert(encodes(text, at, program[at]));
            assert(encodes(text, target as int, program[target as int]));
            match program[target as int] {
                Instruction::LoopOpen(back) => {
                    lemma_close_is_unique(text, target as int, back as int, at);
                },
                _ => {},
            }
        },
        _ => {},
    }
}

/// A command text has one resolved program at most.
pub proof fn lemma_resolved_program_is_unique(
    text: Seq<char>,
    program: Seq<Instruction>,
    other: Seq<Instruction>,
)
    requires
        resolves(text, program),
        resolves(text, other),
    ensures
        program == other,
{
    assert forall|i: int| 0 <= i < program.len() implies program[i] == other[i] by {
        assert(encodes(text, i, program[i]));
        assert(encodes(text, i, other[i]));
        match (program[i], other[i]) {
            (Instruction::LoopOpen(a), Instruction::LoopOpen(b)) => {
                lemma_close_is_unique(text, i, a as int, b as int);
            },
            (Instruction::LoopClose(a), Instruction::LoopClose(b)) => {
                lemma_open_is_unique(text, a as int, b as int, i);
            },
            _ => {},
        }
    }
    assert(program =~= other);
}

} // verus!
