use brainfuck_rs::lexer::tokenize;
use brainfuck_rs::{Action, Error, Interpreter, Lexer, Token};

/// Runs a program to its end, feeding `inputs` to its input instructions,
/// and returns the bytes it wrote.
fn run_program(src: &str, inputs: &[u8]) -> Result<Vec<u8>, Error> {
    let mut it = Interpreter::new(Lexer::from(src));
    drive(&mut it, inputs)
}

fn drive(it: &mut Interpreter, inputs: &[u8]) -> Result<Vec<u8>, Error> {
    let mut out = Vec::new();
    let mut next_input = 0;
    let mut pending = None;
    loop {
        match it.interpret(pending.take(), 1_000_000)? {
            Action::Output(b) => out.push(b),
            Action::Input => {
                pending = Some(inputs[next_input]);
                next_input += 1;
            }
            Action::Continue => {}
            Action::Done => return Ok(out),
        }
    }
}

fn tokens(l: &Lexer) -> Vec<Token> {
    (0..l.len()).map(|i| l.token_at(i)).collect()
}

#[test]
fn tokenize_drops_comments() {
    assert_eq!(
        tokenize("a+b[ c]\n.,<>-x"),
        vec![
            Token::Plus,
            Token::LSquare,
            Token::RSquare,
            Token::Dot,
            Token::Comma,
            Token::Lt,
            Token::Gt,
            Token::Minus
        ]
    );
    assert_eq!(tokenize("no symbols here"), vec![]);
    assert_eq!(tokenize(""), vec![]);
}

#[test]
fn appended_text_tokenizes_like_the_whole() {
    let mut l = Lexer::from("+[ loop");
    l.append("-]x.");
    let whole = Lexer::from("+[ loop-]x.");
    assert_eq!(tokens(&l), tokens(&whole));
    assert_eq!(l.len(), 5);
    assert_eq!(l.position(), 0);
}

#[test]
fn lexer_new_takes_an_owned_string() {
    let l = Lexer::new(String::from("++ comment ."));
    assert_eq!(tokens(&l), vec![Token::Plus, Token::Plus, Token::Dot]);
}

#[test]
fn lexer_advance_stops_at_the_end() {
    let mut l = Lexer::from("+-");
    assert_eq!(l.get_current(), Token::Plus);
    assert!(l.advance());
    assert_eq!(l.get_current(), Token::Minus);
    assert!(!l.advance());
    assert_eq!(l.position(), 1);
    assert_eq!(l.get_current(), Token::Minus);
    assert!(!l.advance());
    assert_eq!(l.position(), 1);
    let mut empty = Lexer::from("");
    assert!(!empty.advance());
    assert_eq!(empty.position(), 0);
}

#[test]
fn new_keeps_the_lexer_cursor() {
    let mut l = Lexer::from("+++.");
    assert!(l.advance());
    assert!(l.advance());
    let mut it = Interpreter::new(l);
    assert_eq!(drive(&mut it, &[]), Ok(vec![1]));
}

#[test]
fn skip_forward_lands_past_the_matching_end() {
    let it = Interpreter::new(Lexer::from("[[..[,]..]...]"));
    assert_eq!(it.exit_loop(1), Ok(10));
    assert_eq!(it.exit_loop(0), Ok(14));
    assert_eq!(it.exit_loop(4), Ok(7));
}

#[test]
fn skip_backward_lands_on_the_matching_start() {
    let it = Interpreter::new(Lexer::from("[[..[,]..]...]"));
    assert_eq!(it.iterate(9), Ok(1));
    assert_eq!(it.iterate(13), Ok(0));
    assert_eq!(it.iterate(6), Ok(4));
}

#[test]
fn unmatched_scans_fail() {
    let it = Interpreter::new(Lexer::from("[[]"));
    assert_eq!(it.exit_loop(0), Err(Error::MissingClosingBraket));
    let it = Interpreter::new(Lexer::from("[]]"));
    assert_eq!(it.iterate(2), Err(Error::MissingOpeningBraket));
}

#[test]
fn increments_wrap_after_256() {
    let src = "+".repeat(256);
    let mut it = Interpreter::new(Lexer::from(&src));
    assert_eq!(drive(&mut it, &[]), Ok(vec![]));
    assert_eq!(it.cell(), 0);
}

#[test]
fn decrement_of_zero_wraps_to_255() {
    assert_eq!(run_program("-.", &[]), Ok(vec![255]));
    assert_eq!(run_program("-+.", &[]), Ok(vec![0]));
}

#[test]
fn input_65_outputs_a() {
    let mut it = Interpreter::new(Lexer::from(",."));
    assert_eq!(it.interpret(None, 100), Ok(Action::Input));
    assert_eq!(it.interpret(Some(65), 100), Ok(Action::Output(65)));
    assert_eq!(65u8 as char, 'A');
    assert_eq!(it.interpret(None, 100), Ok(Action::Done));
}

#[test]
fn open_bracket_alone_is_missing_its_end() {
    assert_eq!(run_program("[", &[]), Err(Error::MissingClosingBraket));
    let mut it = Interpreter::new(Lexer::from("+["));
    assert_eq!(drive(&mut it, &[]), Ok(vec![]));
    assert_eq!(it.finish(), Err(Error::MissingClosingBraket));
}

#[test]
fn close_bracket_alone_is_missing_its_start() {
    assert_eq!(run_program("]", &[]), Err(Error::MissingOpeningBraket));
    assert_eq!(run_program("+]", &[]), Err(Error::MissingOpeningBraket));
}

#[test]
fn moving_left_from_the_start_is_end_of_tape() {
    assert_eq!(run_program("<", &[]), Err(Error::EOT));
    assert_eq!(run_program("><<", &[]), Err(Error::EOT));
}

#[test]
fn hello_world() {
    let src = "++++++++[>++++[>++>+++>+++>+<<<<-]>+>+>->>+[<]<-]>>.>---.+++++++..+++.>>.<-.<.+++.------.--------.>>+.>++.";
    let out = run_program(src, &[]).unwrap();
    assert_eq!(String::from_utf8(out).unwrap(), "Hello World!\n");
}

#[test]
fn skipped_loop_at_the_end_completes() {
    let mut it = Interpreter::new(Lexer::from("[-]"));
    assert_eq!(drive(&mut it, &[]), Ok(vec![]));
    assert_eq!(it.finish(), Ok(()));
}

#[test]
fn tape_grows_to_the_right() {
    let src = format!("{}+.<.", ">".repeat(30_000));
    assert_eq!(run_program(&src, &[]), Ok(vec![1, 0]));
}

#[test]
fn fuel_runs_out_on_an_endless_loop() {
    let mut it = Interpreter::new(Lexer::from("+[]"));
    assert_eq!(it.interpret(None, 1000), Ok(Action::Continue));
    assert_eq!(it.interpret(None, 1000), Ok(Action::Continue));
}

#[test]
fn loops_span_appended_pieces() {
    let mut it = Interpreter::new(Lexer::from("++["));
    assert_eq!(drive(&mut it, &[]), Ok(vec![]));
    it.append(">+<-]");
    assert_eq!(drive(&mut it, &[]), Ok(vec![]));
    it.append(">.");
    assert_eq!(drive(&mut it, &[]), Ok(vec![2]));
    assert_eq!(it.finish(), Ok(()));
    it.append(".");
    assert_eq!(drive(&mut it, &[]), Ok(vec![2]));
}

#[test]
fn step_runs_one_instruction() {
    let mut it = Interpreter::new(Lexer::from("+,."));
    assert_eq!(it.step(None), Ok(Action::Continue));
    assert_eq!(it.cell(), 1);
    assert_eq!(it.step(None), Ok(Action::Input));
    assert_eq!(it.step(Some(7)), Ok(Action::Continue));
    assert_eq!(it.step(None), Ok(Action::Output(7)));
    assert_eq!(it.step(None), Ok(Action::Done));
}

#[test]
fn error_leaves_the_state_as_it_was() {
    let mut it = Interpreter::new(Lexer::from("+<"));
    assert_eq!(it.interpret(None, 10), Err(Error::EOT));
    assert_eq!(it.cell(), 1);
    assert_eq!(it.step(None), Err(Error::EOT));
}

#[test]
fn empty_program_is_done() {
    assert_eq!(run_program("", &[]), Ok(vec![]));
    assert_eq!(run_program("just words", &[]), Ok(vec![]));
}
