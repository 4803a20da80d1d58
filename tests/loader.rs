use bfsim::error::BfError;
use bfsim::sim::{check_valid_prog, program_from_str, Inst};

#[test]
fn valid_text_gives_one_instruction_per_symbol() {
    let text = "> < + - [ ] . ,\n\t[]";
    let prog = program_from_str(text).unwrap();
    let nonblank = text.chars().filter(|c| !c.is_whitespace()).count();
    assert_eq!(prog.len(), nonblank);
    assert_eq!(
        prog,
        vec![
            Inst::Right,
            Inst::Left,
            Inst::Add,
            Inst::Sub,
            Inst::OpBracket,
            Inst::ClBracket,
            Inst::Output,
            Inst::Input,
            Inst::OpBracket,
            Inst::ClBracket,
        ]
    );
}

#[test]
fn empty_and_blank_texts_load_empty() {
    assert_eq!(program_from_str(""), Ok(vec![]));
    assert_eq!(program_from_str(" \n\t "), Ok(vec![]));
}

#[test]
fn comma_reads_and_dot_writes() {
    assert_eq!(program_from_str(",."), Ok(vec![Inst::Input, Inst::Output]));
}

#[test]
fn injected_invalid_char_is_reported() {
    assert_eq!(
        program_from_str("++[>a<-]"),
        Err(BfError::InvalidProgram { invalid_char: 'a' })
    );
    assert_eq!(
        program_from_str("#"),
        Err(BfError::InvalidProgram { invalid_char: '#' })
    );
    assert_eq!(
        program_from_str("+\u{e9}+"),
        Err(BfError::InvalidProgram { invalid_char: '\u{e9}' })
    );
    assert_eq!(
        program_from_str("+\r\n"),
        Err(BfError::InvalidProgram { invalid_char: '\r' })
    );
}

#[test]
fn first_invalid_char_wins_over_brackets() {
    assert_eq!(
        program_from_str("]x"),
        Err(BfError::InvalidProgram { invalid_char: 'x' })
    );
    assert_eq!(
        program_from_str("+y z"),
        Err(BfError::InvalidProgram { invalid_char: 'y' })
    );
}

#[test]
fn close_before_open_is_reported_at_its_index() {
    assert_eq!(
        program_from_str("]"),
        Err(BfError::InvalidProgramBrackets { unmatched: 0 })
    );
    assert_eq!(
        program_from_str("+ + ]["),
        Err(BfError::InvalidProgramBrackets { unmatched: 2 })
    );
    assert_eq!(
        program_from_str("[]]"),
        Err(BfError::InvalidProgramBrackets { unmatched: 2 })
    );
}

#[test]
fn check_valid_prog_on_instructions() {
    assert_eq!(check_valid_prog(&vec![]), Ok(()));
    assert_eq!(
        check_valid_prog(&vec![Inst::OpBracket, Inst::ClBracket]),
        Ok(())
    );
    assert_eq!(check_valid_prog(&vec![Inst::OpBracket]), Ok(()));
    assert_eq!(
        check_valid_prog(&vec![Inst::Add, Inst::ClBracket, Inst::ClBracket]),
        Err(BfError::InvalidProgramBrackets { unmatched: 1 })
    );
    assert_eq!(
        check_valid_prog(&vec![
            Inst::OpBracket,
            Inst::ClBracket,
            Inst::Add,
            Inst::ClBracket
        ]),
        Err(BfError::InvalidProgramBrackets { unmatched: 3 })
    );
}
