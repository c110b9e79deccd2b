//! The tokenizer: turns the characters of a formula into tokens, one at a
//! time, with one token of look-ahead.
use crate::formula::NamedVariable;
use vstd::prelude::*;

verus! {

#[derive(Debug)]
pub enum Token {
    Identifier(NamedVariable),
    Not,
    Implies,
    Iff,
    And,
    Or,
    LeftParen,
    RightParen,
}

/// The mathematical model of a token.
pub enum Tok {
    Ident(Seq<char>),
    Not,
    Implies,
    Iff,
    And,
    Or,
    LParen,
    RParen,
}

impl View for Token {
    type V = Tok;

    open spec fn view(&self) -> Tok {
        match self {
            Token::Identifier(v) => Tok::Ident(v.name@),
            Token::Not => Tok::Not,
            Token::Implies => Tok::Implies,
            Token::Iff => Tok::Iff,
            Token::And => Tok::And,
            Token::Or => Tok::Or,
            Token::LeftParen => Tok::LParen,
            Token::RightParen => Tok::RParen,
        }
    }
}

impl Clone for Token {
    fn clone(&self) -> (r: Self)
        ensures
            r == *self,
    {
        match self {
            Token::Identifier(v) => Token::Identifier(v.clone()),
            Token::Not => Token::Not,
            Token::Implies => Token::Implies,
            Token::Iff => Token::Iff,
            Token::And => Token::And,
            Token::Or => Token::Or,
            Token::LeftParen => Token::LeftParen,
            Token::RightParen => Token::RightParen,
        }
    }
}

/// The two ways in which a token can be malformed.
pub enum LexError {
    /// `<` not followed by `->`.
    ExpectedIff,
    /// `-` not followed by `>`.
    ExpectedImplies,
}

pub open spec fn lex_error_text(e: LexError) -> Seq<char> {
    match e {
        LexError::ExpectedIff => "Expected <->"@,
        LexError::ExpectedImplies => "Expected ->"@,
    }
}

/// The characters with the Unicode `White_Space` property.
pub open spec fn is_white_space(c: char) -> bool {
    let x = c as u32;
    ||| 0x09 <= x <= 0x0D
    ||| x == 0x20
    ||| x == 0x85
    ||| x == 0xA0
    ||| x == 0x1680
    ||| 0x2000 <= x <= 0x200A
    ||| x == 0x2028
    ||| x == 0x2029
    ||| x == 0x202F
    ||| x == 0x205F
    ||| x == 0x3000
}

/// The characters that begin an operator or a parenthesis.
pub open spec fn is_operator_char(c: char) -> bool {
    c == '!' || c == '~' || c == '&' || c == '|' || c == '-' || c == '<' || c == '(' || c == ')'
}

/// The characters that may occur in a variable name.
pub open spec fn is_name_char(c: char) -> bool {
    !is_white_space(c) && !is_operator_char(c)
}

/// The first position at or after `i` that does not hold white space.
pub open spec fn skip_white(s: Seq<char>, i: int) -> int
    decreases s.len() - i,
{
    if 0 <= i < s.len() && is_white_space(s[i]) {
        skip_white(s, i + 1)
    } else {
        i
    }
}

/// The first position at or after `i` that does not hold a name character.
pub open spec fn name_end(s: Seq<char>, i: int) -> int
    decreases s.len() - i,
{
    if 0 <= i < s.len() && is_name_char(s[i]) {
        name_end(s, i + 1)
    } else {
        i
    }
}

pub open spec fn min(a: int, b: int) -> int {
    if a <= b {
        a
    } else {
        b
    }
}

/// Reads one token of `s` from position `i` on: the token (`None` at the end
/// of the text) or the error, and the position where reading stopped.
pub open spec fn scan(s: Seq<char>, i: int) -> (Result<Option<Tok>, LexError>, int) {
    let k = skip_white(s, i);
    if k >= s.len() {
        (Ok(None), k)
    } else {
        let c = s[k];
        if c == '~' || c == '!' {
            (Ok(Some(Tok::Not)), k + 1)
        } else if c == '&' {
            (Ok(Some(Tok::And)), k + 1)
        } else if c == '|' {
            (Ok(Some(Tok::Or)), k + 1)
        } else if c == '(' {
            (Ok(Some(Tok::LParen)), k + 1)
        } else if c == ')' {
            (Ok(Some(Tok::RParen)), k + 1)
        } else if c == '<' {
            if k + 1 < s.len() && s[k + 1] == '-' {
                if k + 2 < s.len() && s[k + 2] == '>' {
                    (Ok(Some(Tok::Iff)), k + 3)
                } else {
                    (Err(LexError::ExpectedIff), min(k + 3, s.len() as int))
                }
            } else {
                (Err(LexError::ExpectedIff), min(k + 2, s.len() as int))
            }
        } else if c == '-' {
            if k + 1 < s.len() && s[k + 1] == '>' {
                (Ok(Some(Tok::Implies)), k + 2)
            } else {
                (Err(LexError::ExpectedImplies), min(k + 2, s.len() as int))
            }
        } else {
            let e = name_end(s, k);
            (Ok(Some(Tok::Ident(s.subrange(k, e)))), e)
        }
    }
}

/// What a lexer is: the text, the position reached in it, and the token
/// read ahead, if any.
pub struct LexState {
    pub text: Seq<char>,
    pub pos: nat,
    pub pending: Option<Tok>,
}

/// Takes the next token: the token read ahead if there is one, else a new one.
pub open spec fn take_token(st: LexState) -> (Result<Option<Tok>, LexError>, LexState) {
    match st.pending {
        Some(t) => (Ok(Some(t)), LexState { pending: None, ..st }),
        None => {
            let (r, next) = scan(st.text, st.pos as int);
            (r, LexState { pos: next as nat, ..st })
        },
    }
}

/// Looks at the next token without taking it: a token read here is kept as
/// the token read ahead.
pub open spec fn look_token(st: LexState) -> (Result<Option<Tok>, LexError>, LexState) {
    match st.pending {
        Some(t) => (Ok(Some(t)), st),
        None => {
            let (r, next) = scan(st.text, st.pos as int);
            match r {
                Ok(o) => (Ok(o), LexState { pos: next as nat, pending: o, ..st }),
                Err(e) => (Err(e), LexState { pos: next as nat, ..st }),
            }
        },
    }
}

/// The tokens of `s` from position `i` to its end, or the first error.
pub open spec fn tokens_from(s: Seq<char>, i: int) -> Result<Seq<Tok>, LexError>
    decreases s.len() - i,
{
    if 0 <= i <= s.len() {
        let (r, next) = scan(s, i);
        match r {
            Err(e) => Err(e),
            Ok(None) => Ok(Seq::empty()),
            Ok(Some(t)) => {
                proof {
                    lemma_scan_progress(s, i);
                }
                match tokens_from(s, next) {
                    Ok(rest) => Ok(seq![t] + rest),
                    Err(e) => Err(e),
                }
            },
        }
    } else {
        Ok(Seq::empty())
    }
}

pub proof fn lemma_skip_white(s: Seq<char>, i: int)
    requires
        0 <= i <= s.len(),
    ensures
        i <= skip_white(s, i) <= s.len(),
        skip_white(s, i) < s.len() ==> !is_white_space(s[skip_white(s, i)]),
    decreases s.len() - i,
{
    if i < s.len() && is_white_space(s[i]) {
        lemma_skip_white(s, i + 1);
    }
}

pub proof fn lemma_name_end(s: Seq<char>, i: int)
    requires
        0 <= i <= s.len(),
    ensures
        i <= name_end(s, i) <= s.len(),
        forall|j: int| i <= j < name_end(s, i) ==> is_name_char(#[trigger] s[j]),
    decreases s.len() - i,
{
    if i < s.len() && is_name_char(s[i]) {
        lemma_name_end(s, i + 1);
    }
}

/// A scan stays within the text, and a scan that yields a token moves forward.
pub proof fn lemma_scan_progress(s: Seq<char>, i: int)
    requires
        0 <= i,
    ensures
        i <= scan(s, i).1,
        i <= s.len() ==> scan(s, i).1 <= s.len(),
        scan(s, i).0 matches Ok(Some(_)) ==> i < scan(s, i).1 <= s.len(),
{
    if i > s.len() {
        return;
    }
    lemma_skip_white(s, i);
    let k = skip_white(s, i);
    if k < s.len() {
        lemma_name_end(s, k);
        if is_name_char(s[k]) {
            assert(name_end(s, k) == name_end(s, k + 1));
            lemma_name_end(s, k + 1);
        }
    }
}

/// Whether a result of the lexer is the one that the model gives.
pub open spec fn lex_result_is(
    r: Result<Option<Token>, String>,
    m: Result<Option<Tok>, LexError>,
) -> bool {
    match (r, m) {
        (Ok(Some(t)), Ok(Some(u))) => t@ == u,
        (Ok(None), Ok(None)) => true,
        (Err(msg), Err(e)) => msg@ == lex_error_text(e),
        _ => false,
    }
}

/// Whether `c` has the Unicode `White_Space` property.
pub fn is_whitespace(c: char) -> (b: bool)
    ensures
        b == is_white_space(c),
{
    let x = c as u32;
    (0x09 <= x && x <= 0x0D) || x == 0x20 || x == 0x85 || x == 0xA0 || x == 0x1680 || (0x2000
        <= x && x <= 0x200A) || x == 0x2028 || x == 0x2029 || x == 0x202F || x == 0x205F || x
        == 0x3000
}

fn is_name_character(c: char) -> (b: bool)
    ensures
        b == is_name_char(c),
{
    !is_whitespace(c) && !(c == '!' || c == '~' || c == '&' || c == '|' || c == '-' || c == '<'
        || c == '(' || c == ')')
}

#[derive(Debug)]
pub struct Lexer<'a> {
    input: &'a str,
    chars: Vec<char>,
    pos: usize,
    peeked_token: Option<Token>,
}

impl<'a> View for Lexer<'a> {
    type V = LexState;

    closed spec fn view(&self) -> LexState {
        LexState {
            text: self.chars@,
            pos: self.pos as nat,
            pending: match self.peeked_token {
                Some(t) => Some(t@),
                None => None,
            },
        }
    }
}

impl<'a> Lexer<'a> {
    #[verifier::type_invariant]
    spec fn well_formed(self) -> bool {
        &&& self.pos <= self.chars@.len()
        &&& self.chars@ == self.input@
    }

    /// A lexer over `input`, at its start; an empty input is refused.
    pub fn new(input: &'a str) -> (r: Result<Self, String>)
        ensures
            r is Err <==> input@.len() == 0,
            r matches Err(e) ==> e@ == "Input should not be empty"@,
            r matches Ok(l) ==> l@ == (LexState { text: input@, pos: 0, pending: None }),
    {
        if input.is_empty() {
            return Err(String::from_str("Input should not be empty"));
        }
        let mut chars: Vec<char> = Vec::new();
        for c in it: input.chars()
            invariant
                chars@ == it.seq().take(it.index()),
        {
            chars.push(c);
        }
        proof {
            broadcast use vstd::string::group_string_axioms;
        }
        assert(chars@ =~= input@);
        Ok(Self { input, chars, pos: 0, peeked_token: None })
    }

    fn peek(&self) -> (c: Option<char>)
        ensures
            c == (if self@.pos < self@.text.len() {
                Some(self@.text[self@.pos as int])
            } else {
                None
            }),
    {
        proof {
            use_type_invariant(self);
        }
        if self.pos < self.chars.len() {
            Some(self.chars[self.pos])
        } else {
            None
        }
    }

    fn advance(&mut self) -> (c: Option<char>)
        ensures
            c == (if old(self)@.pos < old(self)@.text.len() {
                Some(old(self)@.text[old(self)@.pos as int])
            } else {
                None
            }),
            final(self)@ == (LexState {
                pos: min(old(self)@.pos + 1int, old(self)@.text.len() as int) as nat,
                ..old(self)@
            }),
    {
        proof {
            use_type_invariant(&*self);
        }
        if self.pos < self.chars.len() {
            let c = self.chars[self.pos];
            self.pos = self.pos + 1;
            Some(c)
        } else {
            None
        }
    }

    /// Reads the longest run of name characters from the current position.
    fn consume_while(&mut self) -> (s: String)
        ensures
            s@ == old(self)@.text.subrange(
                old(self)@.pos as int,
                name_end(old(self)@.text, old(self)@.pos as int),
            ),
            final(self)@ == (LexState {
                pos: name_end(old(self)@.text, old(self)@.pos as int) as nat,
                ..old(self)@
            }),
    {
        proof {
            use_type_invariant(&*self);
        }
        let start = self.pos;
        loop
            invariant
                start <= self@.pos <= self@.text.len(),
                self@ == (LexState { pos: self@.pos, ..old(self)@ }),
                name_end(self@.text, self@.pos as int) == name_end(self@.text, start as int),
            ensures
                start <= self@.pos <= self@.text.len(),
                self@ == (LexState { pos: self@.pos, ..old(self)@ }),
                name_end(self@.text, self@.pos as int) == name_end(self@.text, start as int),
                name_end(self@.text, self@.pos as int) == self@.pos,
            decreases self@.text.len() - self@.pos,
        {
            match self.peek() {
                Some(c) => {
                    if is_name_character(c) {
                        self.advance();
                    } else {
                        break ;
                    }
                },
                None => break ,
            }
        }
        proof {
            use_type_invariant(&*self);
        }
        let end = self.pos;
        String::from_str(self.input.substring_char(start, end))
    }

    fn next_token_inner(&mut self) -> (r: Result<Option<Token>, String>)
        ensures
            lex_result_is(r, scan(old(self)@.text, old(self)@.pos as int).0),
            final(self)@ == (LexState {
                pos: scan(old(self)@.text, old(self)@.pos as int).1 as nat,
                ..old(self)@
            }),
    {
        proof {
            use_type_invariant(&*self);
            lemma_skip_white(self@.text, self@.pos as int);
        }
        // Skip white space.
        loop
            invariant
                old(self)@.pos <= self@.pos <= self@.text.len(),
                self@ == (LexState { pos: self@.pos, ..old(self)@ }),
                skip_white(self@.text, self@.pos as int) == skip_white(
                    old(self)@.text,
                    old(self)@.pos as int,
                ),
            ensures
                old(self)@.pos <= self@.pos <= self@.text.len(),
                self@ == (LexState { pos: self@.pos, ..old(self)@ }),
                skip_white(self@.text, self@.pos as int) == skip_white(
                    old(self)@.text,
                    old(self)@.pos as int,
                ),
                skip_white(self@.text, self@.pos as int) == self@.pos,
            decreases self@.text.len() - self@.pos,
        {
            match self.peek() {
                Some(c) => {
                    if is_whitespace(c) {
                        self.advance();
                    } else {
                        break ;
                    }
                },
                None => break ,
            }
        }
        let c = match self.peek() {
            Some(c) => c,
            None => return Ok(None),
        };
        if c == '~' || c == '!' {
            self.advance();
            Ok(Some(Token::Not))
        } else if c == '&' {
            self.advance();
            Ok(Some(Token::And))
        } else if c == '|' {
            self.advance();
            Ok(Some(Token::Or))
        } else if c == '(' {
            self.advance();
            Ok(Some(Token::LeftParen))
        } else if c == ')' {
            self.advance();
            Ok(Some(Token::RightParen))
        } else if c == '<' {
            self.advance();
            if self.advance() == Some('-') && self.advance() == Some('>') {
                Ok(Some(Token::Iff))
            } else {
                Err(String::from_str("Expected <->"))
            }
        } else if c == '-' {
            self.advance();
            if self.advance() == Some('>') {
                Ok(Some(Token::Implies))
            } else {
                Err(String::from_str("Expected ->"))
            }
        } else {
            let name = self.consume_while();
            Ok(Some(Token::Identifier(NamedVariable::new(name))))
        }
    }

    /// Looks at the next token without taking it.
    pub fn peek_token(&mut self) -> (r: Result<Option<Token>, String>)
        ensures
            lex_result_is(r, look_token(old(self)@).0),
            final(self)@ == look_token(old(self)@).1,
    {
        proof {
            use_type_invariant(&*self);
        }
        if self.peeked_token.is_none() {
            match self.next_token_inner() {
                Ok(t) => {
                    proof {
                        use_type_invariant(&*self);
                    }
                    self.peeked_token = t;
                },
                Err(e) => {
                    return Err(e);
                },
            }
        }
        match &self.peeked_token {
            Some(t) => Ok(Some(t.clone())),
            None => Ok(None),
        }
    }

    /// Takes the next token.
    pub fn next_token(&mut self) -> (r: Result<Option<Token>, String>)
        ensures
            lex_result_is(r, take_token(old(self)@).0),
            final(self)@ == take_token(old(self)@).1,
    {
        proof {
            use_type_invariant(&*self);
        }
        if let Some(tok) = &self.peeked_token {
            let tok = tok.clone();
            self.peeked_token = None;
            return Ok(Some(tok));
        }
        self.next_token_inner()
    }
}

/// The tokens of a whole input, or the first error.
pub fn lex_string(input: &str) -> (r: Result<Vec<Token>, String>)
    ensures
        input@.len() == 0 ==> (r matches Err(e) && e@ == "Input should not be empty"@),
        input@.len() > 0 ==> match (r, tokens_from(input@, 0)) {
            (Ok(v), Ok(ts)) => v@.map_values(|t: Token| t@) == ts,
            (Err(msg), Err(e)) => msg@ == lex_error_text(e),
            _ => false,
        },
{
    let mut lexer = Lexer::new(input)?;
    let mut tokens: Vec<Token> = Vec::new();
    loop
        invariant
            lexer@.text == input@,
            lexer@.pending is None,
            0 <= lexer@.pos <= input@.len(),
            input@.len() > 0,
            match tokens_from(input@, lexer@.pos as int) {
                Ok(rest) => tokens_from(input@, 0) == Ok::<Seq<Tok>, LexError>(
                    tokens@.map_values(|t: Token| t@) + rest,
                ),
                Err(e) => tokens_from(input@, 0) == Err::<Seq<Tok>, LexError>(e),
            },
        decreases input@.len() - lexer@.pos,
    {
        let ghost before = lexer@;
        proof {
            lemma_scan_progress(input@, before.pos as int);
        }
        match lexer.next_token() {
            Ok(Some(token)) => {
                proof {
                    use_type_invariant(&lexer);
                    assert(tokens_from(input@, before.pos as int) == match tokens_from(input@, lexer@.pos as int) {
                        Ok(rest) => Ok(seq![token@] + rest),
                        Err(e) => Err(e),
                    });
                }
                let ghost old_tokens = tokens@;
                tokens.push(token);
                proof {
                    assert(tokens@.map_values(|t: Token| t@) =~= old_tokens.map_values(
                        |t: Token| t@,
                    ).push(token@));
                    match tokens_from(input@, lexer@.pos as int) {
                        Ok(rest) => {
                            assert(old_tokens.map_values(|t: Token| t@) + (seq![token@] + rest)
                                =~= tokens@.map_values(|t: Token| t@) + rest);
                        },
                        Err(e) => {},
                    }
                }
            },
            Ok(None) => {
                proof {
                    assert(tokens@.map_values(|t: Token| t@) + Seq::<Tok>::empty() =~= tokens@.map_values(|t: Token| t@));
                }
                return Ok(tokens);
            },
            Err(e) => {
                return Err(e);
            },
        }
    }
}

} // verus!
