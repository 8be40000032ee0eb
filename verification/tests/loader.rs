use tape_machine::{validate_code, Instruction, ParseError};

fn load(source: &str) -> Result<Vec<Instruction>, ParseError> {
    validate_code(source.to_string())
}

#[test]
fn empty_source_gives_empty_program() {
    assert_eq!(load(""), Ok(vec![]));
    assert_eq!(validate_code(String::new()), Ok(vec![]));
}

#[test]
fn each_command_maps_to_its_instruction() {
    assert_eq!(
        load("+-<>.,"),
        Ok(vec![
            Instruction::Increment,
            Instruction::Decrement,
            Instruction::MoveLeft,
            Instruction::MoveRight,
            Instruction::Print,
            Instruction::Input,
        ])
    );
}

#[test]
fn other_characters_are_comments() {
    assert_eq!(
        load("add one: + then print\n\t. (done) \u{e9}\u{4e16}"),
        Ok(vec![Instruction::Increment, Instruction::Print])
    );
    assert_eq!(load("no commands here"), Ok(vec![]));
}

#[test]
fn targets_count_instructions_not_characters() {
    assert_eq!(
        load("a [ b - c ] d"),
        Ok(vec![
            Instruction::LoopOpen(2),
            Instruction::Decrement,
            Instruction::LoopClose(0),
        ])
    );
}

#[test]
fn simple_loop_is_resolved() {
    assert_eq!(
        load("+[-]"),
        Ok(vec![
            Instruction::Increment,
            Instruction::LoopOpen(3),
            Instruction::Decrement,
            Instruction::LoopClose(1),
        ])
    );
}

#[test]
fn empty_loop_is_resolved() {
    assert_eq!(
        load("[]"),
        Ok(vec![Instruction::LoopOpen(1), Instruction::LoopClose(0)])
    );
}

#[test]
fn nested_and_sequential_loops_are_resolved() {
    assert_eq!(
        load("[[]-[+]]>[.]"),
        Ok(vec![
            Instruction::LoopOpen(7),
            Instruction::LoopOpen(2),
            Instruction::LoopClose(1),
            Instruction::Decrement,
            Instruction::LoopOpen(6),
            Instruction::Increment,
            Instruction::LoopClose(4),
            Instruction::LoopClose(0),
            Instruction::MoveRight,
            Instruction::LoopOpen(11),
            Instruction::Print,
            Instruction::LoopClose(9),
        ])
    );
}

#[test]
fn loop_targets_point_at_each_other() {
    let program = load("++[>+[>+<-]<-]>>[-]+[[[-]]]").unwrap();
    let mut loops = 0;
    for (at, instruction) in program.iter().enumerate() {
        match *instruction {
            Instruction::LoopOpen(target) => {
                assert!(at < target);
                assert_eq!(program[target], Instruction::LoopClose(at));
                loops += 1;
            }
            Instruction::LoopClose(target) => {
                assert!(target < at);
                assert_eq!(program[target], Instruction::LoopOpen(at));
            }
            _ => {}
        }
    }
    assert_eq!(loops, 6);
}

#[test]
fn bare_close_is_unmatched_close() {
    assert_eq!(load("]"), Err(ParseError::UnmatchedClose));
}

#[test]
fn close_after_balanced_prefix_is_unmatched_close() {
    assert_eq!(load("+]"), Err(ParseError::UnmatchedClose));
    assert_eq!(load("[]]"), Err(ParseError::UnmatchedClose));
    assert_eq!(load("[[-]+]]>[+]"), Err(ParseError::UnmatchedClose));
}

#[test]
fn bare_open_is_unmatched_open() {
    assert_eq!(load("["), Err(ParseError::UnmatchedOpen));
}

#[test]
fn open_never_closed_is_unmatched_open() {
    assert_eq!(load("[[]"), Err(ParseError::UnmatchedOpen));
    assert_eq!(load("+[-"), Err(ParseError::UnmatchedOpen));
    assert_eq!(load("[][[]"), Err(ParseError::UnmatchedOpen));
}

#[test]
fn unmatched_close_is_reported_before_unmatched_open() {
    assert_eq!(load("]["), Err(ParseError::UnmatchedClose));
    assert_eq!(load("[]]["), Err(ParseError::UnmatchedClose));
}

#[test]
fn parse_errors_have_messages() {
    assert_eq!(
        ParseError::UnmatchedClose.message(),
        "Found closing bracket with no opening bracket to match"
    );
    assert_eq!(
        ParseError::UnmatchedOpen.message(),
        "EOF reached but closing bracket not found"
    );
}

#[test]
fn loading_twice_gives_the_same_program() {
    let source = "++[>+++<-]>.";
    assert_eq!(load(source), load(source));
}
