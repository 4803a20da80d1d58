use bfsim::error::BfError;
use bfsim::sim::{BfSimu, CoreFuncBfSimu};

const HELLO_WORLD: &str = "++++++++[>++++[>++>+++>+++>+<<<<-]>+>+>->>+[<]<-]>>.>---.+++++++..+++.>>.<-.<.+++.------.--------.>>>++.";

fn run_text(prog: &str, input: &str) -> Result<String, BfError> {
    let mut simu = BfSimu::new(prog, input)?;
    simu.run()
}

#[test]
fn two_increments_then_write() {
    let out = run_text("++.", "").unwrap();
    let chars: Vec<char> = out.chars().collect();
    assert_eq!(chars.len(), 1);
    assert_eq!(chars[0] as u32, 2);
}

#[test]
fn loop_runs_once_and_halts() {
    assert_eq!(run_text("+[-]", ""), Ok(String::new()));
    assert_eq!(run_text("+[-].", ""), Ok('\u{0}'.to_string()));
}

#[test]
fn read_then_write_copies_input() {
    assert_eq!(run_text(",.", "A"), Ok("A".to_string()));
}

#[test]
fn read_without_input_fails() {
    assert_eq!(run_text(",", ""), Err(BfError::NoInput));
}

#[test]
fn hello_world_scenario() {
    assert_eq!(run_text(HELLO_WORLD, ""), Ok("Hello World\n".to_string()));
}

#[test]
fn hello_world_with_wide_loop() {
    let prog = "++++++++++[>+++++++>++++++++++>+++>++++<<<<-]>++.>+.+++++++..+++.>>++++.<++.<++++++++.--------.+++.------.--------.>+.";
    assert_eq!(run_text(prog, ""), Ok("Hello, world!".to_string()));
}

#[test]
fn blanks_are_skipped_when_running() {
    assert_eq!(run_text(" ,\n\t. ", "z"), Ok("z".to_string()));
}

#[test]
fn reads_consume_input_in_order() {
    assert_eq!(run_text(",.,.,.", "abc"), Ok("abc".to_string()));
    assert_eq!(run_text(",,.", "xy"), Ok("y".to_string()));
}

#[test]
fn second_read_past_input_fails() {
    assert_eq!(run_text(",.,.", "q"), Err(BfError::NoInput));
}

#[test]
fn output_takes_cell_modulo_256() {
    let mut prog = String::new();
    for _ in 0..(256 + 65) {
        prog.push('+');
    }
    prog.push('.');
    assert_eq!(run_text(&prog, ""), Ok("A".to_string()));
    assert_eq!(run_text("-.", ""), Ok('\u{ff}'.to_string()));
}

#[test]
fn input_takes_code_modulo_256() {
    assert_eq!(run_text(",.", "\u{e9}"), Ok("\u{e9}".to_string()));
    assert_eq!(run_text(",.", "\u{141}"), Ok("A".to_string()));
}

#[test]
fn moves_and_nested_loops() {
    // 3 * 4 = 12 in the second cell, then 12 + 53 = 65
    let prog = "+++[>++++<-]>+++++++++++++++++++++++++++++++++++++++++++++++++++++.";
    assert_eq!(run_text(prog, ""), Ok("A".to_string()));
    let nested = "++[>++[>+++<-]<-]>>+++++++++++++++++++++++++++++++++++++++++++++++++++++.";
    assert_eq!(run_text(nested, ""), Ok("A".to_string()));
}

#[test]
fn left_from_first_cell_wraps_to_last() {
    // step left onto the last cell, raise it to 65, go once round the ring
    let mut prog = String::from("<");
    for _ in 0..65 {
        prog.push('+');
    }
    for _ in 0..1000 {
        prog.push('>');
    }
    prog.push('.');
    assert_eq!(run_text(&prog, ""), Ok("A".to_string()));
    // the last cell is also 999 steps right of the first
    let mut back = String::from("<");
    for _ in 0..65 {
        back.push('+');
    }
    back.push('>');
    for _ in 0..999 {
        back.push('>');
    }
    back.push('.');
    assert_eq!(run_text(&back, ""), Ok("A".to_string()));
}

#[test]
fn unclosed_open_marker_is_accepted() {
    assert_eq!(run_text("++[", ""), Ok(String::new()));
    assert_eq!(run_text("[[+.", ""), Ok('\u{1}'.to_string()));
}

#[test]
fn open_marker_does_not_skip_forward() {
    // the body of a loop runs once even when the cell is zero on entry
    let mut simu = BfSimu::new("[+.-]", "").unwrap();
    assert_eq!(simu.run(), Ok('\u{1}'.to_string()));
}

#[test]
fn step_budget_stops_endless_loop() {
    let mut simu = BfSimu::new("+[]", "").unwrap();
    assert_eq!(simu.run_limited(50), Err(BfError::StepLimit));
}

#[test]
fn step_budget_exactly_enough() {
    let mut simu = BfSimu::new("++.", "").unwrap();
    assert_eq!(simu.run_limited(3), Ok('\u{2}'.to_string()));
    let mut short = BfSimu::new("++.", "").unwrap();
    assert_eq!(short.run_limited(2), Err(BfError::StepLimit));
}

#[test]
fn construction_reports_load_errors() {
    assert!(matches!(
        BfSimu::new("+x", ""),
        Err(BfError::InvalidProgram { invalid_char: 'x' })
    ));
    assert!(matches!(
        BfSimu::new("+]", ""),
        Err(BfError::InvalidProgramBrackets { unmatched: 1 })
    ));
}

#[test]
fn single_operations_through_the_engine() {
    let mut simu = BfSimu::new("", "B").unwrap();
    assert_eq!(simu.add(), Ok(()));
    assert_eq!(simu.add(), Ok(()));
    assert_eq!(simu.sub(), Ok(()));
    assert_eq!(simu.right(), Ok(()));
    assert_eq!(simu.input(), Ok(()));
    assert_eq!(simu.output(), Ok(()));
    assert_eq!(simu.left(), Ok(()));
    assert_eq!(simu.output(), Ok(()));
    assert_eq!(simu.input(), Err(BfError::NoInput));
    assert_eq!(simu.run(), Ok("B\u{1}".to_string()));
}

#[test]
fn backward_jump_finds_matching_open() {
    // the loop body runs twice, moving 2 into the second cell
    let mut simu = BfSimu::new("++[>+<-]>.", "").unwrap();
    assert_eq!(simu.run(), Ok('\u{2}'.to_string()));
}
