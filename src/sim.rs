use vstd::prelude::*;

use vstd::std_specs::iter::IteratorSpec;

use crate::error::BfError;
use crate::storage::{
    decremented, incremented, left_of, right_of, BfArrayImplementation, BfStorageSimu,
    ARR_SIZE,
};

verus! {

/// One instruction of the language.
#[derive(Debug, Clone, Copy, PartialEq, Eq, Structural)]
pub enum Inst {
    Right,
    Left,
    Add,
    Sub,
    OpBracket,
    ClBracket,
    Input,
    Output,
}

/// Characters that the loader skips: space, tab and newline.
pub open spec fn is_blank(c: char) -> bool {
    c == ' ' || c == '\t' || c == '\n'
}

/// The instruction that a symbol stands for, if it is one of the eight.
pub open spec fn inst_of(c: char) -> Option<Inst> {
    if c == '>' {
        Some(Inst::Right)
    } else if c == '<' {
        Some(Inst::Left)
    } else if c == '+' {
        Some(Inst::Add)
    } else if c == '-' {
        Some(Inst::Sub)
    } else if c == '[' {
        Some(Inst::OpBracket)
    } else if c == ']' {
        Some(Inst::ClBracket)
    } else if c == '.' {
        Some(Inst::Output)
    } else if c == ',' {
        Some(Inst::Input)
    } else {
        None
    }
}

/// The instructions of `text`, blanks skipped, or the first character that
/// is neither blank nor a symbol.
pub open spec fn decode(text: Seq<char>) -> Result<Seq<Inst>, char>
    decreases text.len(),
{
    if text.len() == 0 {
        Ok(Seq::empty())
    } else {
        match decode(text.drop_last()) {
            Err(c) => Err(c),
            Ok(p) => {
                let c = text.last();
                if is_blank(c) {
                    Ok(p)
                } else {
                    match inst_of(c) {
                        Some(i) => Ok(p.push(i)),
                        None => Err(c),
                    }
                }
            },
        }
    }
}

/// How an instruction changes the nesting depth of markers.
pub open spec fn weight(i: Inst) -> int {
    match i {
        Inst::OpBracket => 1,
        Inst::ClBracket => -1,
        _ => 0,
    }
}

/// Open markers minus close markers in `p`.
pub open spec fn depth(p: Seq<Inst>) -> int
    decreases p.len(),
{
    if p.len() == 0 {
        0
    } else {
        depth(p.drop_last()) + weight(p.last())
    }
}

/// No prefix of `p` closes more markers than it opens.
pub open spec fn brackets_ok(p: Seq<Inst>) -> bool {
    forall|n: int| 0 <= n <= p.len() ==> depth(#[trigger] p.take(n)) >= 0
}

/// The close marker at `i` is the first one that closes nothing.
pub open spec fn first_unmatched(p: Seq<Inst>, i: int) -> bool {
    &&& 0 <= i < p.len()
    &&& depth(p.take(i + 1)) < 0
    &&& forall|n: int| 0 <= n <= i ==> depth(#[trigger] p.take(n)) >= 0
}

/// What loading `text` gives: its instructions, or the first invalid
/// character, or the first close marker that closes nothing. Open markers
/// left unclosed at the end are accepted.
pub open spec fn load(text: Seq<char>) -> Result<Seq<Inst>, BfError> {
    match decode(text) {
        Err(c) => Err(BfError::InvalidProgram { invalid_char: c }),
        Ok(p) => if brackets_ok(p) {
            Ok(p)
        } else {
            Err(
                BfError::InvalidProgramBrackets {
                    unmatched: (choose|i: int| first_unmatched(p, i)) as usize,
                },
            )
        },
    }
}

/// Once decoding a prefix fails, decoding any longer prefix fails alike.
proof fn lemma_decode_err_sticks(text: Seq<char>, n: int, m: int)
    requires
        0 <= n <= m <= text.len(),
        decode(text.take(n)) is Err,
    ensures
        decode(text.take(m)) == decode(text.take(n)),
    decreases m - n,
{
    if m > n {
        lemma_decode_err_sticks(text, n, m - 1);
        assert(text.take(m).drop_last() =~= text.take(m - 1));
    }
}

/// A prefix of `p` that goes below depth zero, and the first one to do so.
proof fn lemma_first_unmatched_unique(p: Seq<Inst>, i: int, j: int)
    requires
        first_unmatched(p, i),
        first_unmatched(p, j),
    ensures
        i == j,
{
    if i < j {
        assert(depth(p.take(i + 1)) >= 0);
    }
    if j < i {
        assert(depth(p.take(j + 1)) >= 0);
    }
}

/// Checks that no close marker comes before its open marker, and reports the
/// index of the first one that does.
pub fn check_valid_prog(prog: &Vec<Inst>) -> (r: Result<(), BfError>)
    ensures
        r is Ok <==> brackets_ok(prog@),
        r matches Err(e) ==> e matches BfError::InvalidProgramBrackets { unmatched } && first_unmatched(prog@, unmatched as int),
{
    let mut unclosed: usize = 0;
    let mut i: usize = 0;
    assert(prog@.take(0) =~= Seq::<Inst>::empty());
    while i < prog.len()
        invariant
            i <= prog.len(),
            unclosed as int == depth(prog@.take(i as int)),
            unclosed <= i,
            forall|n: int| 0 <= n <= i ==> depth(#[trigger] prog@.take(n)) >= 0,
        decreases prog.len() - i,
    {
        assert(prog@.take(i + 1).drop_last() =~= prog@.take(i as int));
        match prog[i] {
            Inst::OpBracket => {
                unclosed += 1;
            },
            Inst::ClBracket => {
                if unclosed == 0 {
                    return Err(BfError::InvalidProgramBrackets { unmatched: i });
                } else {
                    unclosed -= 1;
                }
            },
            _ => {},
        }
        i += 1;
    }
    assert(prog@.take(prog@.len() as int) =~= prog@);
    Ok(())
}

/// A symbol of the language or a blank.
pub open spec fn is_symbol_or_blank(c: char) -> bool {
    is_blank(c) || inst_of(c) is Some
}

/// How a character changes the nesting depth of markers.
pub open spec fn marker_weight(c: char) -> int {
    if c == '[' {
        1
    } else if c == ']' {
        -1
    } else {
        0
    }
}

/// Open markers minus close markers in `text`.
pub open spec fn marker_depth(text: Seq<char>) -> int
    decreases text.len(),
{
    if text.len() == 0 {
        0
    } else {
        marker_depth(text.drop_last()) + marker_weight(text.last())
    }
}

/// Every marker of `text` is closed after it is opened, and none is left open.
pub open spec fn markers_balanced(text: Seq<char>) -> bool {
    &&& forall|n: int| 0 <= n <= text.len() ==> marker_depth(#[trigger] text.take(n)) >= 0
    &&& marker_depth(text) == 0
}

/// The number of characters of `text` that are not blank.
pub open spec fn count_nonblank(text: Seq<char>) -> nat
    decreases text.len(),
{
    if text.len() == 0 {
        0
    } else {
        count_nonblank(text.drop_last()) + if is_blank(text.last()) {
            0nat
        } else {
            1nat
        }
    }
}

/// Text made of symbols and blanks decodes to one instruction per symbol,
/// with the same depth of markers.
proof fn lemma_decode_symbols(text: Seq<char>)
    requires
        forall|i: int| 0 <= i < text.len() ==> is_symbol_or_blank(#[trigger] text[i]),
    ensures
        decode(text) is Ok,
        decode(text)->Ok_0.len() == count_nonblank(text),
        depth(decode(text)->Ok_0) == marker_depth(text),
        (forall|n: int| 0 <= n <= text.len() ==> marker_depth(#[trigger] text.take(n)) >= 0)
            ==> brackets_ok(decode(text)->Ok_0),
    decreases text.len(),
{
    if text.len() > 0 {
        let t = text.drop_last();
        assert forall|i: int| 0 <= i < t.len() implies is_symbol_or_blank(#[trigger] t[i]) by {
            assert(t[i] == text[i]);
        }
        lemma_decode_symbols(t);
        let q = decode(t)->Ok_0;
        let p = decode(text)->Ok_0;
        let c = text.last();
        assert(is_symbol_or_blank(text[text.len() - 1]));
        if !is_blank(c) {
            assert(p == q.push(inst_of(c)->Some_0));
            assert(p.drop_last() =~= q);
        }
        if forall|n: int| 0 <= n <= text.len() ==> marker_depth(#[trigger] text.take(n)) >= 0 {
            assert forall|n: int| 0 <= n <= t.len() implies marker_depth(#[trigger] t.take(n)) >= 0 by {
                assert(t.take(n) =~= text.take(n));
            }
            assert forall|n: int| 0 <= n <= p.len() implies depth(#[trigger] p.take(n)) >= 0 by {
                if n <= q.len() {
                    assert(p.take(n) =~= q.take(n));
                } else {
                    assert(p.take(n) =~= p);
                    assert(text.take(text.len() as int) =~= text);
                }
            }
        }
    }
}

/// Program text made only of symbols and blanks, with balanced markers,
/// loads, and gives one instruction per character that is not blank.
pub proof fn lemma_valid_text_loads(text: Seq<char>)
    requires
        forall|i: int| 0 <= i < text.len() ==> is_symbol_or_blank(#[trigger] text[i]),
        markers_balanced(text),
    ensures
        load(text) is Ok,
        load(text)->Ok_0.len() == count_nonblank(text),
{
    lemma_decode_symbols(text);
}

/// An invalid character put into text that is otherwise made of symbols and
/// blanks makes loading fail, naming that character.
pub proof fn lemma_invalid_char_reported(before: Seq<char>, c: char, after: Seq<char>)
    requires
        forall|i: int| 0 <= i < before.len() ==> is_symbol_or_blank(#[trigger] before[i]),
        forall|i: int| 0 <= i < after.len() ==> is_symbol_or_blank(#[trigger] after[i]),
        !is_symbol_or_blank(c),
    ensures
        load(before + seq![c] + after) == Err::<Seq<Inst>, BfError>(
            BfError::InvalidProgram { invalid_char: c },
        ),
{
    let text = before + seq![c] + after;
    let n = before.len() as int;
    lemma_decode_symbols(before);
    assert(text.take(n) =~= before);
    assert(text.take(n + 1).drop_last() =~= before);
    assert(text.take(n + 1).last() == c);
    lemma_decode_err_sticks(text, n + 1, text.len() as int);
    assert(text.take(text.len() as int) =~= text);
}

/// Text whose first marker is a close marker fails to load, naming the index
/// of that marker among the instructions.
pub proof fn lemma_early_close_reported(text: Seq<char>, i: int)
    requires
        decode(text) is Ok,
        0 <= i < decode(text)->Ok_0.len(),
        decode(text)->Ok_0[i] == Inst::ClBracket,
        forall|j: int| 0 <= j < i ==> weight(#[trigger] decode(text)->Ok_0[j]) == 0,
    ensures
        load(text) == Err::<Seq<Inst>, BfError>(
            BfError::InvalidProgramBrackets { unmatched: i as usize },
        ),
{
    let p = decode(text)->Ok_0;
    assert forall|n: int| 0 <= n <= i implies depth(#[trigger] p.take(n)) == 0 by {
        lemma_depth_flat(p, n);
    }
    lemma_depth_flat(p, i);
    assert(p.take(i + 1).drop_last() =~= p.take(i));
    assert(first_unmatched(p, i));
    assert(!brackets_ok(p));
    let j = choose|j: int| first_unmatched(p, j);
    lemma_first_unmatched_unique(p, i, j);
}

/// A prefix without markers has depth zero.
proof fn lemma_depth_flat(p: Seq<Inst>, n: int)
    requires
        0 <= n <= p.len(),
        forall|j: int| 0 <= j < n ==> weight(#[trigger] p[j]) == 0,
    ensures
        depth(p.take(n)) == 0,
    decreases n,
{
    if n > 0 {
        lemma_depth_flat(p, n - 1);
        assert(p.take(n).drop_last() =~= p.take(n - 1));
        assert(weight(p[n - 1]) == 0);
    }
}

/// The instruction for one character, `Ok(None)` for a blank, or the
/// character back when it is neither.
fn inst_from_char(c: char) -> (r: Result<Option<Inst>, char>)
    ensures
        is_blank(c) ==> r == Ok::<Option<Inst>, char>(None),
        !is_blank(c) ==> r == (match inst_of(c) {
            Some(i) => Ok::<Option<Inst>, char>(Some(i)),
            None => Err(c),
        }),
{
    match c {
        ' ' | '\t' | '\n' => Ok(None),
        '>' => Ok(Some(Inst::Right)),
        '<' => Ok(Some(Inst::Left)),
        '+' => Ok(Some(Inst::Add)),
        '-' => Ok(Some(Inst::Sub)),
        '[' => Ok(Some(Inst::OpBracket)),
        ']' => Ok(Some(Inst::ClBracket)),
        '.' => Ok(Some(Inst::Output)),
        ',' => Ok(Some(Inst::Input)),
        x => Err(x),
    }
}

/// Loads program text: skips blanks, maps each symbol to its instruction,
/// then checks the markers.
pub fn program_from_str(prog_str: &str) -> (r: Result<Vec<Inst>, BfError>)
    ensures
        load(prog_str@) == match r {
            Ok(v) => Ok::<Seq<Inst>, BfError>(v@),
            Err(e) => Err(e),
        },
{
    let ghost text = prog_str@;
    let mut res: Vec<Inst> = Vec::new();
    let mut chars = prog_str.chars();
    let ghost mut k: int = 0;
    assert(text.take(0) =~= Seq::<char>::empty());
    loop
        invariant
            text == prog_str@,
            0 <= k <= text.len(),
            chars.remaining() == text.skip(k),
            decode(text.take(k)) == Ok::<Seq<Inst>, char>(res@),
        ensures
            decode(text) == Ok::<Seq<Inst>, char>(res@),
        decreases text.len() - k,
    {
        match chars.next() {
            None => {
                assert(text.take(k) =~= text);
                break;
            },
            Some(c) => {
                assert(c == text[k]);
                assert(text.take(k + 1).drop_last() =~= text.take(k));
                match inst_from_char(c) {
                    Ok(None) => {},
                    Ok(Some(i)) => {
                        res.push(i);
                    },
                    Err(x) => {
                        proof {
                            lemma_decode_err_sticks(text, k + 1, text.len() as int);
                            assert(text.take(text.len() as int) =~= text);
                        }
                        return Err(BfError::InvalidProgram { invalid_char: x });
                    },
                }
                proof {
                    assert(text.skip(k).drop_first() =~= text.skip(k + 1));
                    k = k + 1;
                }
            },
        }
    }
    match check_valid_prog(&res) {
        Ok(()) => Ok(res),
        Err(e) => {
            proof {
                let i = e->unmatched as int;
                let j = choose|j: int| first_unmatched(res@, j);
                lemma_first_unmatched_unique(res@, i, j);
            }
            Err(e)
        },
    }
}

/// The cell value that reading the character `c` stores: its code modulo 256.
pub open spec fn input_cell(c: char) -> i64 {
    ((c as u32) % 256) as i64
}

/// The character that writing a cell of value `v` appends: the byte `v`
/// modulo 256.
pub open spec fn output_char(v: i64) -> char {
    ((v % 256) as u8) as char
}

/// Where the scan for the open marker that matches the close marker at
/// `close` ends, looking at the positions below `k`: the nearest `j` from
/// which open markers outnumber close markers by one up to `close`.
pub open spec fn match_below(p: Seq<Inst>, close: int, k: int) -> Option<int>
    decreases k,
{
    if k <= 0 {
        None
    } else if depth(p.subrange(k - 1, close)) == 1 {
        Some(k - 1)
    } else {
        match_below(p, close, k - 1)
    }
}

/// The open marker that matches the close marker at `close`, if any.
pub open spec fn matching_open(p: Seq<Inst>, close: int) -> Option<int> {
    match_below(p, close, close)
}

/// A snapshot of a running program: the program counter, the tape, how much
/// input has been read, and the output so far.
pub struct MachineState {
    pub pc: int,
    pub cells: Seq<i64>,
    pub cursor: int,
    pub in_pos: int,
    pub output: Seq<char>,
}

impl MachineState {
    pub open spec fn at(self, pc: int) -> MachineState {
        MachineState { pc, ..self }
    }

    pub open spec fn moved_right(self) -> MachineState {
        MachineState { cursor: right_of(self.cursor, self.cells.len() as int), ..self }
    }

    pub open spec fn moved_left(self) -> MachineState {
        MachineState { cursor: left_of(self.cursor, self.cells.len() as int), ..self }
    }

    pub open spec fn with_cell(self, v: i64) -> MachineState {
        MachineState { cells: self.cells.update(self.cursor, v), ..self }
    }

    pub open spec fn cell(self) -> i64 {
        self.cells[self.cursor]
    }

    pub open spec fn read_from(self, input: Seq<char>) -> MachineState {
        MachineState { in_pos: self.in_pos + 1, ..self.with_cell(input_cell(input[self.in_pos])) }
    }

    pub open spec fn written(self) -> MachineState {
        MachineState { output: self.output.push(output_char(self.cell())), ..self }
    }
}

/// What one step of the machine does.
pub enum Step {
    Next(MachineState),
    Halted(Seq<char>),
    Failed(BfError),
}

/// One step of `prog` on `input` from state `s`.
pub open spec fn step(prog: Seq<Inst>, input: Seq<char>, s: MachineState) -> Step {
    if s.pc < 0 || s.pc >= prog.len() {
        Step::Halted(s.output)
    } else {
        let next = s.pc + 1;
        match prog[s.pc] {
            Inst::Right => Step::Next(s.moved_right().at(next)),
            Inst::Left => Step::Next(s.moved_left().at(next)),
            Inst::Add => Step::Next(s.with_cell(incremented(s.cell())).at(next)),
            Inst::Sub => Step::Next(s.with_cell(decremented(s.cell())).at(next)),
            Inst::OpBracket => Step::Next(s.at(next)),
            Inst::Input => if s.in_pos < input.len() {
                Step::Next(s.read_from(input).at(next))
            } else {
                Step::Failed(BfError::NoInput)
            },
            Inst::Output => Step::Next(s.written().at(next)),
            Inst::ClBracket => if s.cell() == 0 {
                Step::Next(s.at(next))
            } else {
                match matching_open(prog, s.pc) {
                    Some(j) => Step::Next(s.at(j)),
                    None => Step::Failed(BfError::RuntimeError),
                }
            },
        }
    }
}

/// The outcome of running `prog` on `input` from `s`, executing at most
/// `fuel` instructions: the output once the program counter runs past the
/// end, the first error, or `StepLimit` when the fuel runs out first.
pub open spec fn execute(prog: Seq<Inst>, input: Seq<char>, s: MachineState, fuel: nat) -> Result<
    Seq<char>,
    BfError,
>
    decreases fuel,
{
    match step(prog, input, s) {
        Step::Halted(out) => Ok(out),
        Step::Failed(e) => if fuel == 0 {
            Err(BfError::StepLimit)
        } else {
            Err(e)
        },
        Step::Next(t) => if fuel == 0 {
            Err(BfError::StepLimit)
        } else {
            execute(prog, input, t, (fuel - 1) as nat)
        },
    }
}

/// The result of a run, as sequences.
pub open spec fn run_view(r: Result<String, BfError>) -> Result<Seq<char>, BfError> {
    match r {
        Ok(s) => Ok(s@),
        Err(e) => Err(e),
    }
}

/// Relies on `String::push`: appends one character.
#[verifier::external_body]
fn push_char(s: &mut String, c: char)
    ensures
        final(s)@ == old(s)@.push(c),
{
    s.push(c);
}

/// The characters of `s`, in order.
fn chars_of(s: &str) -> (r: Vec<char>)
    ensures
        r@ == s@,
{
    let mut res: Vec<char> = Vec::new();
    let mut chars = s.chars();
    let ghost mut k: int = 0;
    loop
        invariant
            0 <= k <= s@.len(),
            chars.remaining() == s@.skip(k),
            res@ == s@.take(k),
        ensures
            res@ == s@,
        decreases s@.len() - k,
    {
        match chars.next() {
            None => {
                assert(s@.take(k) =~= s@);
                break;
            },
            Some(c) => {
                res.push(c);
                proof {
                    assert(s@.take(k + 1) =~= s@.take(k).push(c));
                    assert(s@.skip(k).drop_first() =~= s@.skip(k + 1));
                    k = k + 1;
                }
            },
        }
    }
    res
}

/// An interpreter: a loaded program, its input, a tape, and the state of the run.
pub struct BfSimu<Storage> where Storage: BfStorageSimu {
    program: Vec<Inst>,
    index: usize,
    output: String,
    input: Vec<char>,
    input_index: usize,
    storage: Storage,
}

/// The operations of the interpreter. `state` is the machine state, `code`
/// the program and `input_seq` the whole input; `inv` holds between calls.
pub trait CoreFuncBfSimu: Sized {
    spec fn inv(&self) -> bool;

    spec fn state(&self) -> MachineState;

    spec fn code(&self) -> Seq<Inst>;

    spec fn input_seq(&self) -> Seq<char>;

    /// Runs the program from the current state until it halts or fails.
    fn run(&mut self) -> (r: Result<String, BfError>)
        requires
            old(self).inv(),
        ensures
            final(self).inv(),
            final(self).code() == old(self).code(),
            final(self).input_seq() == old(self).input_seq(),
            run_view(r) == execute(
                old(self).code(),
                old(self).input_seq(),
                old(self).state(),
                u64::MAX as nat,
            ),
    ;

    /// Moves the tape's cursor right.
    fn right(&mut self) -> (r: Result<(), BfError>)
        requires
            old(self).inv(),
        ensures
            final(self).inv(),
            final(self).code() == old(self).code(),
            final(self).input_seq() == old(self).input_seq(),
            r is Ok,
            final(self).state() == old(self).state().moved_right(),
    ;

    /// Moves the tape's cursor left.
    fn left(&mut self) -> (r: Result<(), BfError>)
        requires
            old(self).inv(),
        ensures
            final(self).inv(),
            final(self).code() == old(self).code(),
            final(self).input_seq() == old(self).input_seq(),
            r is Ok,
            final(self).state() == old(self).state().moved_left(),
    ;

    /// Adds one to the current cell.
    fn add(&mut self) -> (r: Result<(), BfError>)
        requires
            old(self).inv(),
        ensures
            final(self).inv(),
            final(self).code() == old(self).code(),
            final(self).input_seq() == old(self).input_seq(),
            r is Ok,
            final(self).state() == old(self).state().with_cell(
                incremented(old(self).state().cell()),
            ),
    ;

    /// Subtracts one from the current cell.
    fn sub(&mut self) -> (r: Result<(), BfError>)
        requires
            old(self).inv(),
        ensures
            final(self).inv(),
            final(self).code() == old(self).code(),
            final(self).input_seq() == old(self).input_seq(),
            r is Ok,
            final(self).state() == old(self).state().with_cell(
                decremented(old(self).state().cell()),
            ),
    ;

    /// Reads the next input character into the current cell, or fails with
    /// `NoInput` when none is left.
    fn input(&mut self) -> (r: Result<(), BfError>)
        requires
            old(self).inv(),
        ensures
            final(self).inv(),
            final(self).code() == old(self).code(),
            final(self).input_seq() == old(self).input_seq(),
            old(self).state().in_pos < old(self).input_seq().len() ==> r is Ok
                && final(self).state() == old(self).state().read_from(old(self).input_seq()),
            old(self).state().in_pos >= old(self).input_seq().len() ==> r == Err::<(), BfError>(
                BfError::NoInput,
            ) && final(self).state() == old(self).state(),
    ;

    /// Appends the character of the current cell to the output.
    fn output(&mut self) -> (r: Result<(), BfError>)
        requires
            old(self).inv(),
        ensures
            final(self).inv(),
            final(self).code() == old(self).code(),
            final(self).input_seq() == old(self).input_seq(),
            r is Ok,
            final(self).state() == old(self).state().written(),
    ;

    /// Executes the close marker at the program counter: steps past it when
    /// the current cell is zero, else jumps back to its open marker.
    fn cl_bracket(&mut self) -> (r: Result<(), BfError>)
        requires
            old(self).inv(),
            old(self).state().pc < old(self).code().len(),
        ensures
            final(self).inv(),
            final(self).code() == old(self).code(),
            final(self).input_seq() == old(self).input_seq(),
            old(self).state().cell() == 0 ==> r is Ok && final(self).state() == old(
                self,
            ).state().at(old(self).state().pc + 1),
            old(self).state().cell() != 0 ==> match matching_open(
                old(self).code(),
                old(self).state().pc,
            ) {
                Some(j) => r is Ok && final(self).state() == old(self).state().at(j),
                None => r == Err::<(), BfError>(BfError::RuntimeError) && final(self).state()
                    == old(self).state(),
            },
    ;

    /// The open marker that matches the close marker at the program counter.
    fn find_matching_bracket(&mut self) -> (r: Result<usize, BfError>)
        requires
            old(self).inv(),
            old(self).state().pc < old(self).code().len(),
        ensures
            *final(self) == *old(self),
            match matching_open(old(self).code(), old(self).state().pc) {
                Some(j) => r == Ok::<usize, BfError>(j as usize),
                None => r == Err::<usize, BfError>(BfError::RuntimeError),
            },
    ;
}

/// Depth is additive at the front of a sequence.
proof fn lemma_depth_front(x: Inst, q: Seq<Inst>)
    ensures
        depth(seq![x] + q) == weight(x) + depth(q),
    decreases q.len(),
{
    if q.len() > 0 {
        lemma_depth_front(x, q.drop_last());
        assert((seq![x] + q).drop_last() =~= seq![x] + q.drop_last());
    } else {
        assert((seq![x] + q).drop_last() =~= q);
    }
}

/// The scan ends below where it started.
proof fn lemma_match_below_range(p: Seq<Inst>, close: int, k: int)
    ensures
        match_below(p, close, k) matches Some(j) ==> 0 <= j < k,
    decreases k,
{
    if k > 0 {
        lemma_match_below_range(p, close, k - 1);
    }
}

/// The state of a fresh run on a tape of `len` zero cells.
pub open spec fn start_state(len: nat) -> MachineState {
    MachineState {
        pc: 0,
        cells: Seq::new(len, |i: int| 0i64),
        cursor: 0,
        in_pos: 0,
        output: Seq::empty(),
    }
}

impl<Storage> CoreFuncBfSimu for BfSimu<Storage> where Storage: BfStorageSimu {
    closed spec fn inv(&self) -> bool {
        &&& self.storage.inv()
        &&& self.index <= self.program.len()
        &&& self.input_index <= self.input.len()
    }

    closed spec fn state(&self) -> MachineState {
        MachineState {
            pc: self.index as int,
            cells: self.storage.cells(),
            cursor: self.storage.cursor(),
            in_pos: self.input_index as int,
            output: self.output@,
        }
    }

    closed spec fn code(&self) -> Seq<Inst> {
        self.program@
    }

    closed spec fn input_seq(&self) -> Seq<char> {
        self.input@
    }

    fn run(&mut self) -> (r: Result<String, BfError>) {
        self.run_limited(u64::MAX)
    }

    fn right(&mut self) -> (r: Result<(), BfError>) {
        self.storage.right();
        Ok(())
    }

    fn left(&mut self) -> (r: Result<(), BfError>) {
        self.storage.left();
        Ok(())
    }

    fn add(&mut self) -> (r: Result<(), BfError>) {
        self.storage.add();
        Ok(())
    }

    fn sub(&mut self) -> (r: Result<(), BfError>) {
        self.storage.sub();
        Ok(())
    }

    fn input(&mut self) -> (r: Result<(), BfError>) {
        if self.input_index < self.input.len() {
            let c: char = self.input[self.input_index];
            let code: u32 = c as u32;
            let value: i64 = (code % 256) as i64;
            self.storage.set(value);
            self.input_index += 1;
            Ok(())
        } else {
            Err(BfError::NoInput)
        }
    }

    fn output(&mut self) -> (r: Result<(), BfError>) {
        let v: i64 = self.storage.get();
        let byte: i64 = match v.checked_rem_euclid(256) {
            Some(b) => b,
            None => 0,
        };
        let c: char = (byte as u8) as char;
        push_char(&mut self.output, c);
        Ok(())
    }

    fn cl_bracket(&mut self) -> (r: Result<(), BfError>) {
        if self.storage.get() == 0 {
            self.index += 1;
            Ok(())
        } else {
            match self.find_matching_bracket() {
                Ok(j) => {
                    proof {
                        lemma_match_below_range(self.program@, self.index as int, self.index as int);
                    }
                    self.index = j;
                    Ok(())
                },
                Err(e) => Err(e),
            }
        }
    }

    fn find_matching_bracket(&mut self) -> (r: Result<usize, BfError>) {
        let ghost p = self.program@;
        let ghost close = self.index as int;
        let mut count_closed: usize = 1;
        let mut count_open: usize = 0;
        let mut index: usize = self.index;
        assert(p.subrange(close, close) =~= Seq::<Inst>::empty());
        loop
            invariant
                p == self.program@,
                close == self.index,
                close < p.len(),
                index <= close,
                count_open + count_closed <= 1 + close - index,
                count_open - count_closed + 1 == depth(p.subrange(index as int, close)),
                match_below(p, close, close) == match_below(p, close, index as int),
            decreases index,
        {
            if index < 1 {
                return Err(BfError::RuntimeError);
            }
            index -= 1;
            proof {
                assert(p.subrange(index as int, close) =~= seq![p[index as int]] + p.subrange(
                    index + 1,
                    close,
                ));
                lemma_depth_front(p[index as int], p.subrange(index + 1, close));
            }
            assert(count_open + count_closed <= close - index);
            assert(close < self.program.len());
            match self.program[index] {
                Inst::OpBracket => count_open += 1,
                Inst::ClBracket => count_closed += 1,
                _ => {},
            }
            if count_open == count_closed {
                return Ok(index);
            }
        }
    }
}

impl<Storage> BfSimu<Storage> where Storage: BfStorageSimu {
    /// Runs the program from the current state, executing at most
    /// `max_steps` instructions; fails with `StepLimit` past that.
    pub fn run_limited(&mut self, max_steps: u64) -> (r: Result<String, BfError>)
        requires
            old(self).inv(),
        ensures
            final(self).inv(),
            final(self).code() == old(self).code(),
            final(self).input_seq() == old(self).input_seq(),
            run_view(r) == execute(
                old(self).code(),
                old(self).input_seq(),
                old(self).state(),
                max_steps as nat,
            ),
    {
        let ghost code = self.code();
        let ghost input = self.input_seq();
        let ghost goal = execute(code, input, self.state(), max_steps as nat);
        let mut steps: u64 = 0;
        while self.index < self.program.len()
            invariant
                self.inv(),
                self.code() == code,
                self.input_seq() == input,
                code == old(self).code(),
                input == old(self).input_seq(),
                goal == execute(code, input, old(self).state(), max_steps as nat),
                steps <= max_steps,
                goal == execute(code, input, self.state(), (max_steps - steps) as nat),
            decreases max_steps - steps,
        {
            if steps == max_steps {
                return Err(BfError::StepLimit);
            }
            let ghost before = self.state();
            let inst: Inst = self.program[self.index];
            let res: Result<(), BfError> = match inst {
                Inst::Right => self.right(),
                Inst::Left => self.left(),
                Inst::Add => self.add(),
                Inst::Sub => self.sub(),
                Inst::OpBracket => Ok(()),
                Inst::ClBracket => self.cl_bracket(),
                Inst::Input => self.input(),
                Inst::Output => self.output(),
            };
            match res {
                Ok(()) => {},
                Err(e) => {
                    return Err(e);
                },
            }
            match inst {
                Inst::ClBracket => {},
                _ => {
                    self.index += 1;
                },
            }
            steps += 1;
            assert(step(code, input, before) == Step::Next(self.state()));
        }
        Ok(self.output.clone())
    }
}

impl BfSimu<BfArrayImplementation> {
    /// Loads `prog_str` and sets up a run on `input_str` with a fresh tape of
    /// `ARR_SIZE` cells.
    pub fn new(prog_str: &str, input_str: &str) -> (r: Result<
        BfSimu<BfArrayImplementation>,
        BfError,
    >)
        ensures
            match r {
                Ok(sim) => {
                    &&& load(prog_str@) == Ok::<Seq<Inst>, BfError>(sim.code())
                    &&& sim.inv()
                    &&& sim.input_seq() == input_str@
                    &&& sim.state() == start_state(ARR_SIZE as nat)
                },
                Err(e) => load(prog_str@) == Err::<Seq<Inst>, BfError>(e),
            },
    {
        let program: Vec<Inst> = match program_from_str(prog_str) {
            Ok(p) => p,
            Err(e) => {
                return Err(e);
            },
        };
        let index: usize = 0;
        let output: String = String::new();
        let input: Vec<char> = chars_of(input_str);
        let input_index: usize = 0;
        let storage: BfArrayImplementation = BfArrayImplementation::new();
        let sim = BfSimu { program, index, output, input, input_index, storage };
        assert(sim.state() == start_state(ARR_SIZE as nat));
        Ok(sim)
    }
}

} // verus!
