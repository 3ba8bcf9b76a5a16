use vstd::prelude::*;

use crate::lexer::{Lexer, Token};
use crate::tape::{wrap_decr, wrap_incr, Cells, INITIAL_TAPE_SIZE};

verus! {

/// Why an interpretation pass stopped.
#[derive(Clone, Copy, Debug, PartialEq, Eq, Structural)]
pub enum Error {
    /// A loop start has no matching loop end.
    MissingClosingBraket,
    /// A loop end has no matching loop start.
    MissingOpeningBraket,
    /// A value for an input instruction could not be read or parsed.
    StdinReadFail,
    /// The data pointer would move left of the first cell.
    EOT,
}

/// What the interpreter hands back to its caller after a pass.
#[derive(Clone, Copy, Debug, PartialEq, Eq, Structural)]
pub enum Action {
    /// The instruction ran and there is more to do.
    Continue,
    /// An output instruction ran; the byte is to be written out.
    Output(u8),
    /// The cursor stands on an input instruction and no value was supplied.
    Input,
    /// The program is exhausted.
    Done,
}

/// The abstract state of the engine.
pub struct Machine {
    pub toks: Seq<Token>,
    pub pc: nat,
    pub nesting: nat,
    pub tape: Seq<u8>,
    pub head: nat,
}

/// Change of bracket depth caused by one symbol.
pub open spec fn delta(t: Token) -> int {
    match t {
        Token::LSquare => 1,
        Token::RSquare => -1,
        _ => 0,
    }
}

/// Loop starts minus loop ends in `s`.
pub open spec fn depth(s: Seq<Token>) -> int
    decreases s.len(),
{
    if s.len() == 0 {
        0
    } else {
        depth(s.drop_last()) + delta(s.last())
    }
}

/// Every prefix has at least as many loop starts as loop ends, and the
/// whole program has as many of each.
pub open spec fn balanced(s: Seq<Token>) -> bool {
    &&& depth(s) == 0
    &&& forall|k: int| 0 <= k <= s.len() ==> depth(#[trigger] s.take(k)) >= 0
}

/// Scans forward from index `j` with `c` loop starts still open; the index
/// just past the loop end that closes the first of them, if any.
pub open spec fn forward_match(toks: Seq<Token>, j: int, c: nat) -> Option<int>
    decreases toks.len() - j,
{
    if j < 0 || j >= toks.len() {
        None
    } else {
        match toks[j] {
            Token::LSquare => forward_match(toks, j + 1, c + 1),
            Token::RSquare => if c <= 1 {
                Some(j + 1)
            } else {
                forward_match(toks, j + 1, (c - 1) as nat)
            },
            _ => forward_match(toks, j + 1, c),
        }
    }
}

/// Scans backward from index `j` with `c` loop ends still open; the index of
/// the loop start that closes the first of them, if any.
pub open spec fn backward_match(toks: Seq<Token>, j: int, c: nat) -> Option<int>
    decreases j + 1,
{
    if j < 0 || j >= toks.len() {
        None
    } else {
        match toks[j] {
            Token::RSquare => backward_match(toks, j - 1, c + 1),
            Token::LSquare => if c <= 1 {
                Some(j)
            } else {
                backward_match(toks, j - 1, (c - 1) as nat)
            },
            _ => backward_match(toks, j - 1, c),
        }
    }
}

/// A consistent state: the cursor within the program, the pointer on a
/// cell, and the nesting level equal to the loops opened before the cursor.
pub open spec fn machine_wf(m: Machine) -> bool {
    &&& m.pc <= m.toks.len()
    &&& m.head < m.tape.len()
    &&& m.nesting == depth(m.toks.take(m.pc as int))
}

/// One instruction. `input` is the value for an input instruction; without
/// one, the machine pauses there unchanged.
pub open spec fn step_spec(m: Machine, input: Option<u8>) -> Result<(Machine, Action), Error> {
    if m.pc >= m.toks.len() {
        Ok((m, Action::Done))
    } else {
        let cell = m.tape[m.head as int];
        let next = Machine { pc: m.pc + 1, ..m };
        match m.toks[m.pc as int] {
            Token::LSquare => if cell == 0 {
                match forward_match(m.toks, m.pc as int, 0) {
                    Some(j) => Ok((Machine { pc: j as nat, ..m }, Action::Continue)),
                    None => Err(Error::MissingClosingBraket),
                }
            } else {
                Ok((Machine { nesting: m.nesting + 1, ..next }, Action::Continue))
            },
            Token::RSquare => if m.nesting == 0 {
                Err(Error::MissingOpeningBraket)
            } else if cell == 0 {
                Ok((Machine { nesting: (m.nesting - 1) as nat, ..next }, Action::Continue))
            } else {
                match backward_match(m.toks, m.pc as int, 0) {
                    Some(j) => Ok(
                        (
                            Machine { pc: j as nat, nesting: (m.nesting - 1) as nat, ..m },
                            Action::Continue,
                        ),
                    ),
                    None => Err(Error::MissingOpeningBraket),
                }
            },
            Token::Dot => Ok((next, Action::Output(cell))),
            Token::Minus => Ok(
                (
                    Machine { tape: m.tape.update(m.head as int, wrap_decr(cell)), ..next },
                    Action::Continue,
                ),
            ),
            Token::Plus => Ok(
                (
                    Machine { tape: m.tape.update(m.head as int, wrap_incr(cell)), ..next },
                    Action::Continue,
                ),
            ),
            Token::Lt => if m.head == 0 {
                Err(Error::EOT)
            } else {
                Ok((Machine { head: (m.head - 1) as nat, ..next }, Action::Continue))
            },
            Token::Gt => Ok(
                (
                    Machine {
                        head: m.head + 1,
                        tape: if m.head + 1 == m.tape.len() {
                            m.tape.push(0u8)
                        } else {
                            m.tape
                        },
                        ..next
                    },
                    Action::Continue,
                ),
            ),
            Token::Comma => match input {
                Some(v) => Ok(
                    (Machine { tape: m.tape.update(m.head as int, v), ..next }, Action::Continue),
                ),
                None => Ok((m, Action::Input)),
            },
        }
    }
}

/// Up to `fuel` instructions, stopping early at output, at an input
/// instruction without a value, at the end, or at an error. `input` is
/// offered to the first instruction only.
pub open spec fn run(m: Machine, input: Option<u8>, fuel: nat) -> Result<(Machine, Action), Error>
    decreases fuel,
{
    if fuel == 0 {
        Ok((m, Action::Continue))
    } else {
        match step_spec(m, input) {
            Err(e) => Err(e),
            Ok((m2, a)) => if a == Action::Continue {
                run(m2, None, (fuel - 1) as nat)
            } else {
                Ok((m2, a))
            },
        }
    }
}

/// The state in which [`run`] stops: after the last instruction it ran, or,
/// on an error, before the instruction that failed.
pub open spec fn run_state(m: Machine, input: Option<u8>, fuel: nat) -> Machine
    decreases fuel,
{
    if fuel == 0 {
        m
    } else {
        match step_spec(m, input) {
            Err(e) => m,
            Ok((m2, a)) => if a == Action::Continue {
                run_state(m2, None, (fuel - 1) as nat)
            } else {
                m2
            },
        }
    }
}

/// The depth of a prefix grows by the symbol just past it.
pub proof fn lemma_depth_take_next(s: Seq<Token>, k: int)
    requires
        0 <= k < s.len(),
    ensures
        depth(s.take(k + 1)) == depth(s.take(k)) + delta(s[k]),
{
    assert(s.take(k + 1).drop_last() =~= s.take(k));
}

/// The depth never exceeds the length.
pub proof fn lemma_depth_bound(s: Seq<Token>)
    ensures
        depth(s) <= s.len(),
    decreases s.len(),
{
    if s.len() > 0 {
        lemma_depth_bound(s.drop_last());
    }
}

/// A forward scan that finds its match closes exactly the `c` open loops.
pub proof fn lemma_forward_match_depth(toks: Seq<Token>, j: int, c: nat)
    requires
        0 <= j <= toks.len(),
        c >= 1,
        forward_match(toks, j, c) is Some,
    ensures
        j < forward_match(toks, j, c).unwrap() <= toks.len(),
        toks[forward_match(toks, j, c).unwrap() - 1] == Token::RSquare,
        depth(toks.take(forward_match(toks, j, c).unwrap())) == depth(toks.take(j)) - c,
        forall|l: int|
            j <= l < forward_match(toks, j, c).unwrap() ==> depth(#[trigger] toks.take(l)) > depth(
                toks.take(j),
            ) - c,
    decreases toks.len() - j,
{
    lemma_depth_take_next(toks, j);
    match toks[j] {
        Token::LSquare => lemma_forward_match_depth(toks, j + 1, c + 1),
        Token::RSquare => if c > 1 {
            lemma_forward_match_depth(toks, j + 1, (c - 1) as nat);
        },
        _ => lemma_forward_match_depth(toks, j + 1, c),
    }
}

/// A forward scan that finds no match ends with loops still open.
pub proof fn lemma_forward_no_match_depth(toks: Seq<Token>, j: int, c: nat)
    requires
        0 <= j <= toks.len(),
        c >= 1,
        forward_match(toks, j, c) is None,
    ensures
        depth(toks) >= depth(toks.take(j)) - c + 1,
    decreases toks.len() - j,
{
    if j == toks.len() {
        assert(toks.take(j) =~= toks);
    } else {
        lemma_depth_take_next(toks, j);
        match toks[j] {
            Token::LSquare => lemma_forward_no_match_depth(toks, j + 1, c + 1),
            Token::RSquare => lemma_forward_no_match_depth(toks, j + 1, (c - 1) as nat),
            _ => lemma_forward_no_match_depth(toks, j + 1, c),
        }
    }
}

/// A backward scan that finds its match lands before the `c` open loop ends.
pub proof fn lemma_backward_match_depth(toks: Seq<Token>, j: int, c: nat)
    requires
        -1 <= j < toks.len(),
        c >= 1,
        backward_match(toks, j, c) is Some,
    ensures
        0 <= backward_match(toks, j, c).unwrap() <= j,
        toks[backward_match(toks, j, c).unwrap()] == Token::LSquare,
        depth(toks.take(backward_match(toks, j, c).unwrap())) == depth(toks.take(j + 1)) - c,
        forall|l: int|
            backward_match(toks, j, c).unwrap() < l <= j + 1 ==> depth(#[trigger] toks.take(l))
                > depth(toks.take(j + 1)) - c,
    decreases j + 1,
{
    lemma_depth_take_next(toks, j);
    match toks[j] {
        Token::RSquare => lemma_backward_match_depth(toks, j - 1, c + 1),
        Token::LSquare => if c > 1 {
            lemma_backward_match_depth(toks, j - 1, (c - 1) as nat);
        },
        _ => lemma_backward_match_depth(toks, j - 1, c),
    }
}

/// A backward scan that finds no match started with fewer loops opened
/// before it than loop ends it was closing.
pub proof fn lemma_backward_no_match_depth(toks: Seq<Token>, j: int, c: nat)
    requires
        -1 <= j < toks.len(),
        c >= 1,
        backward_match(toks, j, c) is None,
    ensures
        depth(toks.take(j + 1)) < c,
    decreases j + 1,
{
    if j == -1 {
        assert(toks.take(0) =~= Seq::<Token>::empty());
    } else {
        lemma_depth_take_next(toks, j);
        match toks[j] {
            Token::RSquare => lemma_backward_no_match_depth(toks, j - 1, c + 1),
            Token::LSquare => lemma_backward_no_match_depth(toks, j - 1, (c - 1) as nat),
            _ => lemma_backward_no_match_depth(toks, j - 1, c),
        }
    }
}

/// The loop start at `open` and the loop end at `close` match: the depth
/// before the start comes back exactly after the end, and not earlier.
pub open spec fn matched(toks: Seq<Token>, open: int, close: int) -> bool {
    &&& 0 <= open < close < toks.len()
    &&& toks[open] == Token::LSquare
    &&& toks[close] == Token::RSquare
    &&& depth(toks.take(close + 1)) == depth(toks.take(open))
    &&& forall|l: int| open < l <= close ==> depth(#[trigger] toks.take(l)) > depth(toks.take(open))
}

/// Skipping forward from a loop start lands one past its matching loop end.
pub proof fn lemma_skip_forward_lands_past_match(toks: Seq<Token>, at: int)
    requires
        0 <= at < toks.len(),
        toks[at] == Token::LSquare,
        forward_match(toks, at, 0) is Some,
    ensures
        matched(toks, at, forward_match(toks, at, 0).unwrap() - 1),
{
    assert(forward_match(toks, at, 0) == forward_match(toks, at + 1, 1));
    lemma_depth_take_next(toks, at);
    lemma_forward_match_depth(toks, at + 1, 1);
    let k = forward_match(toks, at, 0).unwrap();
    assert forall|l: int| at < l <= k - 1 implies depth(#[trigger] toks.take(l)) > depth(
        toks.take(at),
    ) by {}
}

/// Skipping backward from a loop end lands exactly on its matching loop
/// start.
pub proof fn lemma_skip_backward_lands_on_match(toks: Seq<Token>, at: int)
    requires
        0 <= at < toks.len(),
        toks[at] == Token::RSquare,
        backward_match(toks, at, 0) is Some,
    ensures
        matched(toks, backward_match(toks, at, 0).unwrap(), at),
{
    lemma_depth_take_next(toks, at);
    if at == 0 {
        assert(backward_match(toks, -1, 1) is None);
    } else {
        assert(backward_match(toks, at, 0) == backward_match(toks, at - 1, 1));
        lemma_backward_match_depth(toks, at - 1, 1);
    }
}

/// A forward scan that has not yet passed the end of a matched pair, with
/// the open count that the depths give, finds that end.
proof fn lemma_forward_match_found(toks: Seq<Token>, open: int, close: int, j: int, c: nat)
    requires
        matched(toks, open, close),
        open < j <= close,
        c == depth(toks.take(j)) - depth(toks.take(open)),
    ensures
        forward_match(toks, j, c) == Some(close + 1),
    decreases close - j,
{
    lemma_depth_take_next(toks, j);
    assert(depth(toks.take(j)) > depth(toks.take(open)));
    if j < close {
        assert(depth(toks.take(j + 1)) > depth(toks.take(open)));
        let c2 = (depth(toks.take(j + 1)) - depth(toks.take(open))) as nat;
        lemma_forward_match_found(toks, open, close, j + 1, c2);
    }
}

/// A loop start whose matching loop end exists is skipped to just past it.
pub proof fn lemma_skip_forward_finds_match(toks: Seq<Token>, open: int, close: int)
    requires
        matched(toks, open, close),
    ensures
        forward_match(toks, open, 0) == Some(close + 1),
{
    lemma_depth_take_next(toks, open);
    assert(forward_match(toks, open, 0) == forward_match(toks, open + 1, 1));
    lemma_forward_match_found(toks, open, close, open + 1, 1);
}

/// A backward scan that has not yet passed the start of a matched pair, with
/// the open count that the depths give, finds that start.
proof fn lemma_backward_match_found(toks: Seq<Token>, open: int, close: int, j: int, c: nat)
    requires
        matched(toks, open, close),
        open <= j < close,
        c == depth(toks.take(j + 1)) - depth(toks.take(open)),
    ensures
        backward_match(toks, j, c) == Some(open),
    decreases j - open,
{
    lemma_depth_take_next(toks, j);
    assert(depth(toks.take(j + 1)) > depth(toks.take(open)));
    if j > open {
        assert(depth(toks.take(j)) > depth(toks.take(open)));
        let c2 = (depth(toks.take(j)) - depth(toks.take(open))) as nat;
        lemma_backward_match_found(toks, open, close, j - 1, c2);
    }
}

/// A loop end whose matching loop start exists goes back exactly to it.
pub proof fn lemma_skip_backward_finds_match(toks: Seq<Token>, open: int, close: int)
    requires
        matched(toks, open, close),
    ensures
        backward_match(toks, close, 0) == Some(open),
{
    lemma_depth_take_next(toks, close);
    assert(backward_match(toks, close, 0) == backward_match(toks, close - 1, 1));
    lemma_backward_match_found(toks, open, close, close - 1, 1);
}

/// Every instruction that succeeds keeps the state consistent.
pub proof fn lemma_step_preserves_wf(m: Machine, input: Option<u8>)
    requires
        machine_wf(m),
    ensures
        step_spec(m, input) is Ok ==> machine_wf(step_spec(m, input).unwrap().0),
{
    if m.pc < m.toks.len() {
        let pc = m.pc as int;
        lemma_depth_take_next(m.toks, pc);
        match m.toks[pc] {
            Token::LSquare => {
                if forward_match(m.toks, pc, 0) is Some {
                    assert(forward_match(m.toks, pc, 0) == forward_match(m.toks, pc + 1, 1));
                    lemma_forward_match_depth(m.toks, pc + 1, 1);
                }
            },
            Token::RSquare => {
                if pc > 0 && backward_match(m.toks, pc, 0) is Some {
                    assert(backward_match(m.toks, pc, 0) == backward_match(m.toks, pc - 1, 1));
                    lemma_backward_match_depth(m.toks, pc - 1, 1);
                }
            },
            _ => {},
        }
    }
}

/// Moving left while the pointer is on the first cell is an end-of-tape
/// error, whatever the rest of the state.
pub proof fn lemma_left_of_first_cell_is_eot(m: Machine, input: Option<u8>)
    requires
        m.pc < m.toks.len(),
        m.toks[m.pc as int] == Token::Lt,
        m.head == 0,
    ensures
        step_spec(m, input) == Err::<(Machine, Action), Error>(Error::EOT),
{
}

/// A program whose brackets balance never stops on a bracket error, from any
/// consistent state and for any number of instructions.
pub proof fn lemma_balanced_no_bracket_error(m: Machine, input: Option<u8>, fuel: nat)
    requires
        machine_wf(m),
        balanced(m.toks),
    ensures
        run(m, input, fuel) != Err::<(Machine, Action), Error>(Error::MissingClosingBraket),
        run(m, input, fuel) != Err::<(Machine, Action), Error>(Error::MissingOpeningBraket),
    decreases fuel,
{
    if fuel > 0 && m.pc < m.toks.len() {
        let pc = m.pc as int;
        lemma_depth_take_next(m.toks, pc);
        assert(depth(m.toks.take(pc + 1)) >= 0);
        match m.toks[pc] {
            Token::LSquare => {
                assert(forward_match(m.toks, pc, 0) == forward_match(m.toks, pc + 1, 1));
                if forward_match(m.toks, pc, 0) is None {
                    lemma_forward_no_match_depth(m.toks, pc + 1, 1);
                }
            },
            Token::RSquare => {
                if pc == 0 {
                    assert(m.toks.take(0) =~= Seq::<Token>::empty());
                } else {
                    assert(backward_match(m.toks, pc, 0) == backward_match(m.toks, pc - 1, 1));
                    if backward_match(m.toks, pc, 0) is None {
                        lemma_backward_no_match_depth(m.toks, pc - 1, 1);
                    }
                }
            },
            _ => {},
        }
        lemma_step_preserves_wf(m, input);
        match step_spec(m, input) {
            Ok((m2, a)) => {
                if a == Action::Continue {
                    lemma_balanced_no_bracket_error(m2, None, (fuel - 1) as nat);
                }
            },
            Err(e) => {},
        }
    }
}

/// The engine: the program with its cursor, the tape, and the nesting level.
///
/// All of it persists across calls of [`Interpreter::interpret`], so that a
/// program can grow piece by piece and loops may span several pieces.
///
/// Once the last symbol has run, the lexer's cursor stays on it and
/// `exhausted` records that it has run; the next symbol to run is then the
/// first one appended after it.
pub struct Interpreter {
    nesting_lvl: usize,
    lexer: Lexer,
    cells: Cells,
    exhausted: bool,
}

impl View for Interpreter {
    type V = Machine;

    closed spec fn view(&self) -> Machine {
        Machine {
            toks: self.lexer.tokens(),
            pc: if self.exhausted {
                self.lexer.pos() + 1
            } else {
                self.lexer.pos()
            },
            nesting: self.nesting_lvl as nat,
            tape: self.cells.cells(),
            head: self.cells.head(),
        }
    }
}

impl Interpreter {
    /// The lexer's cursor and the `exhausted` flag agree.
    pub closed spec fn cursor_ok(&self) -> bool {
        &&& self.lexer.wf()
        &&& self.exhausted ==> self.lexer.pos() < self.lexer.tokens().len()
    }

    /// The state is consistent (see [`machine_wf`]).
    pub open spec fn wf(&self) -> bool {
        self.cursor_ok() && machine_wf(self@)
    }

    /// An engine that runs `lexer`'s program from the lexer's cursor on,
    /// with a fresh tape of `INITIAL_TAPE_SIZE` zero cells and a nesting
    /// level of 0. The nesting level counts the loops entered before the
    /// cursor, so the engine is consistent exactly when the symbols before
    /// the cursor hold as many loop starts as loop ends (always so with the
    /// cursor on the first symbol).
    pub fn new(lexer: Lexer) -> (r: Interpreter)
        requires
            lexer.wf(),
        ensures
            r@ == (Machine {
                toks: lexer.tokens(),
                pc: lexer.pos(),
                nesting: 0,
                tape: Seq::new(INITIAL_TAPE_SIZE as nat, |i: int| 0u8),
                head: 0,
            }),
            r.wf() == (depth(lexer.tokens().take(lexer.pos() as int)) == 0),
            lexer.pos() == 0 ==> r.wf(),
    {
        let r = Interpreter { nesting_lvl: 0, lexer, cells: Cells::new(), exhausted: false };
        assert(r@.toks.take(0) =~= Seq::<Token>::empty());
        r
    }

    /// Moves on past the symbol under the cursor.
    fn move_to_next(&mut self)
        requires
            old(self).cursor_ok(),
            !old(self).exhausted,
            old(self).lexer.pos() < old(self).lexer.tokens().len(),
        ensures
            final(self).cursor_ok(),
            final(self)@ == (Machine { pc: old(self)@.pc + 1, ..old(self)@ }),
    {
        if !self.lexer.advance() {
            self.exhausted = true;
        }
    }

    /// Moves the cursor to index `j`, one past the last symbol at most.
    fn move_to(&mut self, j: usize)
        requires
            old(self).cursor_ok(),
            j <= old(self).lexer.tokens().len(),
            0 < old(self).lexer.tokens().len(),
        ensures
            final(self).cursor_ok(),
            final(self)@ == (Machine { pc: j as nat, ..old(self)@ }),
    {
        if j < self.lexer.len() {
            self.lexer.jump(j);
            self.exhausted = false;
        } else {
            self.lexer.jump(j - 1);
            self.exhausted = true;
        }
    }

    /// The value of the current cell.
    pub fn cell(&self) -> (r: u8)
        requires
            self.wf(),
        ensures
            r == self@.tape[self@.head as int],
    {
        self.cells.get()
    }

    /// Skips a loop whose start is at index `at`: the index just past the
    /// matching loop end, or `MissingClosingBraket` when the program ends
    /// first.
    pub fn exit_loop(&self, at: usize) -> (r: Result<usize, Error>)
        requires
            self.wf(),
            at < self@.toks.len(),
            self@.toks[at as int] == Token::LSquare,
        ensures
            match forward_match(self@.toks, at as int, 0) {
                Some(j) => r == Ok::<usize, Error>(j as usize) && at < j <= self@.toks.len(),
                None => r == Err::<usize, Error>(Error::MissingClosingBraket),
            },
    {
        let n = self.lexer.len();
        let mut j: usize = at;
        let mut c: usize = 0;
        while j < n
            invariant
                n == self@.toks.len(),
                at <= j <= n,
                c <= j - at,
                forward_match(self@.toks, at as int, 0) == forward_match(self@.toks, j as int, c as nat),
                self@.toks[at as int] == Token::LSquare,
                j > at ==> c >= 1,
            decreases n - j,
        {
            match self.lexer.token_at(j) {
                Token::LSquare => {
                    c = c + 1;
                },
                Token::RSquare => {
                    if c <= 1 {
                        return Ok(j + 1);
                    }
                    c = c - 1;
                },
                _ => {},
            }
            j = j + 1;
        }
        Err(Error::MissingClosingBraket)
    }

    /// Goes back from a loop end at index `at` to the matching loop start:
    /// its index, or `MissingOpeningBraket` when the program's start comes
    /// first.
    pub fn iterate(&self, at: usize) -> (r: Result<usize, Error>)
        requires
            self.wf(),
            at < self@.toks.len(),
            self@.toks[at as int] == Token::RSquare,
        ensures
            match backward_match(self@.toks, at as int, 0) {
                Some(j) => 0 <= j < at && r == Ok::<usize, Error>(j as usize),
                None => r == Err::<usize, Error>(Error::MissingOpeningBraket),
            },
    {
        let n = self.lexer.len();
        let mut j: usize = at;
        let mut c: usize = 0;
        loop
            invariant
                n == self@.toks.len(),
                at < n,
                j <= at,
                c <= at - j,
                backward_match(self@.toks, at as int, 0) == backward_match(self@.toks, j as int, c as nat),
                self@.toks[at as int] == Token::RSquare,
                j < at ==> c >= 1,
            decreases j,
        {
            match self.lexer.token_at(j) {
                Token::RSquare => {
                    c = c + 1;
                },
                Token::LSquare => {
                    if c <= 1 {
                        return Ok(j);
                    }
                    c = c - 1;
                },
                _ => {},
            }
            if j == 0 {
                assert(backward_match(self@.toks, -1, c as nat) is None);
                return Err(Error::MissingOpeningBraket);
            }
            j = j - 1;
        }
    }

    /// Runs one instruction, as [`step_spec`] says. On an error nothing
    /// changes.
    pub fn step(&mut self, input: Option<u8>) -> (r: Result<Action, Error>)
        requires
            old(self).wf(),
        ensures
            final(self).wf(),
            match step_spec(old(self)@, input) {
                Ok((m, a)) => r == Ok::<Action, Error>(a) && final(self)@ == m,
                Err(e) => r == Err::<Action, Error>(e) && final(self)@ == old(self)@,
            },
    {
        proof {
            lemma_step_preserves_wf(self@, input);
        }
        if self.exhausted {
            if self.lexer.advance() {
                self.exhausted = false;
            } else {
                return Ok(Action::Done);
            }
        }
        let pc = self.lexer.position();
        if pc >= self.lexer.len() {
            return Ok(Action::Done);
        }
        proof {
            lemma_depth_bound(self@.toks.take(pc as int));
        }
        match self.lexer.get_current() {
            Token::LSquare => {
                if self.cells.get() == 0 {
                    match self.exit_loop(pc) {
                        Ok(j) => self.move_to(j),
                        Err(e) => return Err(e),
                    }
                } else {
                    self.nesting_lvl = self.nesting_lvl + 1;
                    self.move_to_next();
                }
            },
            Token::RSquare => {
                if self.nesting_lvl == 0 {
                    return Err(Error::MissingOpeningBraket);
                }
                if self.cells.get() == 0 {
                    self.nesting_lvl = self.nesting_lvl - 1;
                    self.move_to_next();
                } else {
                    match self.iterate(pc) {
                        Ok(j) => {
                            self.nesting_lvl = self.nesting_lvl - 1;
                            self.move_to(j);
                        },
                        Err(e) => return Err(e),
                    }
                }
            },
            Token::Dot => {
                let v = self.cells.get();
                self.move_to_next();
                return Ok(Action::Output(v));
            },
            Token::Minus => {
                self.cells.decr();
                self.move_to_next();
            },
            Token::Plus => {
                self.cells.incr();
                self.move_to_next();
            },
            Token::Lt => {
                match self.cells.move_left() {
                    Ok(()) => {
                        self.move_to_next();
                    },
                    Err(e) => return Err(e),
                }
            },
            Token::Gt => {
                self.cells.move_right();
                self.move_to_next();
            },
            Token::Comma => {
                match input {
                    Some(v) => {
                        self.cells.set(v);
                        self.move_to_next();
                    },
                    None => return Ok(Action::Input),
                }
            },
        }
        Ok(Action::Continue)
    }

    /// Runs up to `fuel` instructions, as [`run`] says: it stops early to
    /// hand out an output byte, to ask for an input value, at the end of the
    /// program, or at an error, and returns `Action::Continue` when the fuel
    /// runs out. `input` is the value for the first instruction, when the
    /// previous pass stopped on an input instruction. After an error the
    /// state is the one before the instruction that failed ([`run_state`]).
    pub fn interpret(&mut self, input: Option<u8>, fuel: u64) -> (r: Result<Action, Error>)
        requires
            old(self).wf(),
        ensures
            final(self).wf(),
            final(self)@ == run_state(old(self)@, input, fuel as nat),
            match run(old(self)@, input, fuel as nat) {
                Ok((m, a)) => r == Ok::<Action, Error>(a) && final(self)@ == m,
                Err(e) => r == Err::<Action, Error>(e),
            },
    {
        let mut budget: u64 = fuel;
        let mut pending: Option<u8> = input;
        loop
            invariant
                self.wf(),
                run(old(self)@, input, fuel as nat) == run(self@, pending, budget as nat),
                run_state(old(self)@, input, fuel as nat) == run_state(
                    self@,
                    pending,
                    budget as nat,
                ),
            decreases budget,
        {
            if budget == 0 {
                return Ok(Action::Continue);
            }
            match self.step(pending) {
                Ok(Action::Continue) => {
                    pending = None;
                    budget = budget - 1;
                },
                Ok(a) => return Ok(a),
                Err(e) => return Err(e),
            }
        }
    }

    /// Appends the symbols of `s` to the program; the cursor, the tape and
    /// the nesting level stay as they are.
    pub fn append(&mut self, s: &str)
        requires
            old(self).wf(),
        ensures
            final(self).wf(),
            final(self)@ == (Machine { toks: old(self)@.toks + crate::lexer::tokens_of(s@), ..old(self)@ }),
    {
        self.lexer.append(s);
        assert(self@.toks.take(self@.pc as int) =~= old(self)@.toks.take(self@.pc as int));
    }

    /// Ends a program that is known to be complete: a loop still open is a
    /// missing loop end.
    pub fn finish(&self) -> (r: Result<(), Error>)
        ensures
            r == (if self@.nesting > 0 {
                Err::<(), Error>(Error::MissingClosingBraket)
            } else {
                Ok(())
            }),
    {
        if self.nesting_lvl > 0 {
            Err(Error::MissingClosingBraket)
        } else {
            Ok(())
        }
    }
}

} // verus!
