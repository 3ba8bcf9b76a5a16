use vstd::prelude::*;

verus! {

/// One instruction symbol of the language.
#[derive(Clone, Copy, Debug, PartialEq, Eq, Structural)]
pub enum Token {
    /// `]`, loop end
    RSquare,
    /// `[`, loop start
    LSquare,
    /// `.`, output the current cell
    Dot,
    /// `-`, decrement the current cell
    Minus,
    /// `+`, increment the current cell
    Plus,
    /// `<`, move the pointer left
    Lt,
    /// `>`, move the pointer right
    Gt,
    /// `,`, read a value into the current cell
    Comma,
}

/// The symbol a source character stands for; every other character is a
/// comment.
pub open spec fn token_of(c: char) -> Option<Token> {
    if c == '[' {
        Some(Token::LSquare)
    } else if c == ']' {
        Some(Token::RSquare)
    } else if c == '.' {
        Some(Token::Dot)
    } else if c == '-' {
        Some(Token::Minus)
    } else if c == '+' {
        Some(Token::Plus)
    } else if c == '<' {
        Some(Token::Lt)
    } else if c == '>' {
        Some(Token::Gt)
    } else if c == ',' {
        Some(Token::Comma)
    } else {
        None
    }
}

/// The symbols of a text, in order, with comment characters dropped.
pub open spec fn tokens_of(s: Seq<char>) -> Seq<Token>
    decreases s.len(),
{
    if s.len() == 0 {
        Seq::empty()
    } else {
        let rest = tokens_of(s.drop_last());
        match token_of(s.last()) {
            Some(t) => rest.push(t),
            None => rest,
        }
    }
}

/// Tokenizing a concatenation gives the concatenation of the token rows.
pub proof fn lemma_tokens_of_concat(s1: Seq<char>, s2: Seq<char>)
    ensures
        tokens_of(s1 + s2) == tokens_of(s1) + tokens_of(s2),
    decreases s2.len(),
{
    if s2.len() == 0 {
        assert(s1 + s2 =~= s1);
        assert(tokens_of(s2) =~= Seq::<Token>::empty());
        assert(tokens_of(s1) + tokens_of(s2) =~= tokens_of(s1));
    } else {
        let s = s1 + s2;
        assert(s.drop_last() =~= s1 + s2.drop_last());
        assert(s.last() == s2.last());
        lemma_tokens_of_concat(s1, s2.drop_last());
        match token_of(s2.last()) {
            Some(t) => {
                assert(tokens_of(s1) + tokens_of(s2.drop_last()).push(t) =~= (tokens_of(s1)
                    + tokens_of(s2.drop_last())).push(t));
            },
            None => {},
        }
    }
}

/// Recognizes one source character.
pub fn token_from_char(c: char) -> (r: Option<Token>)
    ensures
        r == token_of(c),
{
    match c {
        '[' => Some(Token::LSquare),
        ']' => Some(Token::RSquare),
        '.' => Some(Token::Dot),
        '-' => Some(Token::Minus),
        '+' => Some(Token::Plus),
        '<' => Some(Token::Lt),
        '>' => Some(Token::Gt),
        ',' => Some(Token::Comma),
        _ => None,
    }
}

/// Turns program text into its instruction symbols; never fails.
pub fn tokenize(s: &str) -> (r: Vec<Token>)
    ensures
        r@ == tokens_of(s@),
{
    let mut out: Vec<Token> = Vec::new();
    proof {
        vstd::string::axiom_spec_iter(s);
    }
    for c in it: s.chars()
        invariant
            it.seq() == s@,
            out@ == tokens_of(s@.take(it.index() as int)),
    {
        assert(s@.take(it.index() + 1).drop_last() =~= s@.take(it.index() as int));
        match token_from_char(c) {
            Some(t) => out.push(t),
            None => {},
        }
    }
    assert(s@.take(s@.len() as int) =~= s@);
    out
}

/// The program: its instruction symbols and the cursor into them.
///
/// The cursor always stands on a symbol (at 0 while the program is empty);
/// appending symbols never moves it.
pub struct Lexer {
    pos: usize,
    data: Vec<Token>,
}

impl Lexer {
    /// The instruction symbols.
    pub closed spec fn tokens(&self) -> Seq<Token> {
        self.data@
    }

    /// The cursor.
    pub closed spec fn pos(&self) -> nat {
        self.pos as nat
    }

    /// The cursor stands on a symbol, or at 0 in an empty program.
    pub open spec fn wf(&self) -> bool {
        self.pos() < self.tokens().len() || self.pos() == 0
    }

    /// A program made of the symbols of `data`, cursor on the first.
    pub fn new(data: String) -> (r: Lexer)
        ensures
            r.wf(),
            r.pos() == 0,
            r.tokens() == tokens_of(data@),
    {
        Lexer::from(data.as_str())
    }

    /// A program made of the symbols of `s`, cursor on the first.
    pub fn from(s: &str) -> (r: Lexer)
        ensures
            r.wf(),
            r.pos() == 0,
            r.tokens() == tokens_of(s@),
    {
        Lexer { pos: 0, data: tokenize(s) }
    }

    /// Appends the symbols of `s`; the cursor does not move.
    pub fn append(&mut self, s: &str)
        requires
            old(self).wf(),
        ensures
            final(self).wf(),
            final(self).pos() == old(self).pos(),
            final(self).tokens() == old(self).tokens() + tokens_of(s@),
    {
        let more = tokenize(s);
        let mut i: usize = 0;
        let ghost start = self.data@;
        let ghost p = self.pos;
        while i < more.len()
            invariant
                i <= more@.len(),
                more@ == tokens_of(s@),
                self.pos == p,
                p <= start.len(),
                self.data@ == start + more@.take(i as int),
            decreases more.len() - i,
        {
            self.data.push(more[i]);
            i = i + 1;
            assert(self.data@ =~= start + more@.take(i as int));
        }
        assert(more@.take(i as int) =~= more@);
    }

    /// Number of symbols.
    pub fn len(&self) -> (r: usize)
        ensures
            r == self.tokens().len(),
    {
        self.data.len()
    }

    /// The cursor's index.
    pub fn position(&self) -> (r: usize)
        ensures
            r == self.pos(),
    {
        self.pos
    }

    /// The symbol at index `i`.
    pub fn token_at(&self, i: usize) -> (r: Token)
        requires
            i < self.tokens().len(),
        ensures
            r == self.tokens()[i as int],
    {
        self.data[i]
    }

    /// The symbol under the cursor.
    pub fn get_current(&self) -> (r: Token)
        requires
            self.wf(),
            self.pos() < self.tokens().len(),
        ensures
            r == self.tokens()[self.pos() as int],
    {
        self.data[self.pos]
    }

    /// Steps the cursor to the next symbol and tells whether there was one;
    /// on the last symbol (or in an empty program) the cursor stays where it
    /// is and the answer is `false`.
    pub fn advance(&mut self) -> (r: bool)
        requires
            old(self).wf(),
        ensures
            final(self).wf(),
            final(self).tokens() == old(self).tokens(),
            r == (old(self).pos() + 1 < old(self).tokens().len()),
            final(self).pos() == (if r {
                old(self).pos() + 1
            } else {
                old(self).pos()
            }),
    {
        if self.data.len() > 0 && self.pos < self.data.len() - 1 {
            self.pos = self.pos + 1;
            true
        } else {
            false
        }
    }

    /// Places the cursor on the symbol at index `to`.
    pub fn jump(&mut self, to: usize)
        requires
            to < old(self).tokens().len(),
        ensures
            final(self).wf(),
            final(self).tokens() == old(self).tokens(),
            final(self).pos() == to,
    {
        self.pos = to;
    }
}

} // verus!
