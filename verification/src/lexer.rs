//! The tokenizer for source text, over bytes.
//!
//! Two modes share one lexer: normal mode for statements and expressions,
//! grammar mode for rule and word text, where almost every character is a
//! symbol of its own. Whitespace and comments are skipped; a newline is a
//! token of its own, because line ends separate statements.

use vstd::prelude::*;
use vstd::slice::slice_subrange;

verus! {

/// The lexer's mode.
#[derive(Debug, Clone, Copy, PartialEq, Eq, Structural)]
pub enum LexerMode {
    /// Normal mode: statements and expressions.
    Normal,
    /// Grammar mode: L-system rules and words.
    Grammar,
}

/// A lexical fault in the input.
#[derive(Debug, PartialEq, Eq)]
pub enum LexicalError {
    LengthOverflow(String),
    TruncatedInput(String),
}

/// Token types of both modes.
#[derive(Debug, Clone, Copy, PartialEq, Eq, Structural)]
pub enum TokenType {
    // Identifiers
    Id,
    AtId,
    // Literal values
    Int,
    Float,
    StringLit,
    // Operators
    Assign,
    Add,
    Sub,
    Mul,
    Div,
    Mod,
    Pow,
    EQ,
    NE,
    LT,
    LE,
    GT,
    GE,
    Not,
    And,
    Or,
    BitAnd,
    BitOr,
    BitXor,
    BitNot,
    // Brackets
    LParen,
    RParen,
    LBracket,
    RBracket,
    LBrace,
    RBrace,
    // Symbols
    Dot,
    Comma,
    Colon,
    QM,
    Arrow,
    DArrow,
    // Separators
    SemiColon,
    NewLine,
    // Grammar mode
    Symbol,
    Other,
}

/// A token: its type and the bytes it covers.
#[derive(Debug, Clone, PartialEq)]
pub struct Token<'a> {
    pub ttype: TokenType,
    pub bytes: &'a [u8],
}

impl<'a> Token<'a> {
    /// Creates a token.
    pub fn new(ttype: TokenType, bytes: &'a [u8]) -> (t: Self)
        ensures
            t.ttype == ttype,
            t.bytes == bytes,
    {
        Token { ttype, bytes }
    }

    /// The bytes the token covers.
    pub fn as_bytes(&self) -> (b: &'a [u8])
        ensures
            b == self.bytes,
    {
        self.bytes
    }
}

pub open spec fn is_ws(b: u8) -> bool {
    b == 32 || b == 9 || b == 11 || b == 12
}

pub open spec fn is_nl(b: u8) -> bool {
    b == 10 || b == 13
}

pub open spec fn is_digit(b: u8) -> bool {
    48 <= b <= 57
}

pub open spec fn is_alpha(b: u8) -> bool {
    (65 <= b <= 90) || (97 <= b <= 122) || b == 95
}

pub open spec fn is_word(b: u8) -> bool {
    is_alpha(b) || is_digit(b)
}

/// Where the skipping of whitespace and comments ends, starting at `i` in
/// state `st`: `0` plain text, `1` inside a line comment, `2` inside a block
/// comment, `3` inside a block comment just after a `*`. One byte is
/// consumed per step; an unterminated block comment runs to the end.
pub open spec fn skip_trivia(s: Seq<u8>, i: int, st: int) -> int
    decreases s.len() - i,
{
    if i < 0 || i >= s.len() {
        s.len() as int
    } else if st == 0 {
        if is_ws(s[i]) {
            skip_trivia(s, i + 1, 0)
        } else if s[i] == 47 && i + 1 < s.len() && s[i + 1] == 47 {
            skip_trivia(s, i + 2, 1)
        } else if s[i] == 47 && i + 1 < s.len() && s[i + 1] == 42 {
            skip_trivia(s, i + 2, 2)
        } else {
            i
        }
    } else if st == 1 {
        if is_nl(s[i]) {
            i
        } else {
            skip_trivia(s, i + 1, 1)
        }
    } else if st == 2 {
        if s[i] == 42 {
            skip_trivia(s, i + 1, 3)
        } else {
            skip_trivia(s, i + 1, 2)
        }
    } else {
        if s[i] == 47 {
            skip_trivia(s, i + 1, 0)
        } else if s[i] == 42 {
            skip_trivia(s, i + 1, 3)
        } else {
            skip_trivia(s, i + 1, 2)
        }
    }
}

/// The end of a run of word bytes.
pub open spec fn word_end(s: Seq<u8>, i: int) -> int
    decreases s.len() - i,
{
    if i < 0 || i >= s.len() {
        s.len() as int
    } else if is_word(s[i]) {
        word_end(s, i + 1)
    } else {
        i
    }
}

/// The end of a run of digits.
pub open spec fn digit_end(s: Seq<u8>, i: int) -> int
    decreases s.len() - i,
{
    if i < 0 || i >= s.len() {
        s.len() as int
    } else if is_digit(s[i]) {
        digit_end(s, i + 1)
    } else {
        i
    }
}

/// One position past the closing quote of a string literal whose body
/// starts at `i`, or nothing if the input ends first.
pub open spec fn string_end(s: Seq<u8>, i: int) -> Option<int>
    decreases s.len() - i,
{
    if i < 0 || i >= s.len() {
        None
    } else if s[i] == 34 {
        Some(i + 1)
    } else {
        string_end(s, i + 1)
    }
}

/// The normal-mode token starting at `j` (no trivia before it): its type
/// and its end. Nothing means an unterminated string literal.
pub open spec fn norm_token(s: Seq<u8>, j: int) -> Option<(TokenType, int)> {
    let b = s[j];
    if is_nl(b) {
        Some((TokenType::NewLine, j + 1))
    } else if is_alpha(b) {
        Some((TokenType::Id, word_end(s, j + 1)))
    } else if is_digit(b) {
        let e = digit_end(s, j + 1);
        if e < s.len() && s[e] == 46 && e + 1 < s.len() && is_digit(s[e + 1]) {
            Some((TokenType::Float, digit_end(s, e + 2)))
        } else {
            Some((TokenType::Int, e))
        }
    } else if b == 34 {
        match string_end(s, j + 1) {
            Some(e) => Some((TokenType::StringLit, e)),
            None => None,
        }
    } else if b == 64 {
        Some((TokenType::AtId, word_end(s, j + 1)))
    } else if b == 61 && j + 1 < s.len() && s[j + 1] == 61 {
        Some((TokenType::EQ, j + 2))
    } else if b == 61 && j + 1 < s.len() && s[j + 1] == 62 {
        Some((TokenType::DArrow, j + 2))
    } else if b == 33 && j + 1 < s.len() && s[j + 1] == 61 {
        Some((TokenType::NE, j + 2))
    } else if b == 60 && j + 1 < s.len() && s[j + 1] == 61 {
        Some((TokenType::LE, j + 2))
    } else if b == 62 && j + 1 < s.len() && s[j + 1] == 61 {
        Some((TokenType::GE, j + 2))
    } else if b == 45 && j + 1 < s.len() && s[j + 1] == 62 {
        Some((TokenType::Arrow, j + 2))
    } else if b == 38 && j + 1 < s.len() && s[j + 1] == 38 {
        Some((TokenType::And, j + 2))
    } else if b == 124 && j + 1 < s.len() && s[j + 1] == 124 {
        Some((TokenType::Or, j + 2))
    } else {
        Some((single_token(b), j + 1))
    }
}

/// The type of a one-byte normal-mode token.
pub open spec fn single_token(b: u8) -> TokenType {
    if b == 61 {
        TokenType::Assign
    } else if b == 43 {
        TokenType::Add
    } else if b == 45 {
        TokenType::Sub
    } else if b == 42 {
        TokenType::Mul
    } else if b == 47 {
        TokenType::Div
    } else if b == 37 {
        TokenType::Mod
    } else if b == 94 {
        TokenType::Pow
    } else if b == 60 {
        TokenType::LT
    } else if b == 62 {
        TokenType::GT
    } else if b == 33 {
        TokenType::Not
    } else if b == 38 {
        TokenType::BitAnd
    } else if b == 124 {
        TokenType::BitOr
    } else if b == 126 {
        TokenType::BitNot
    } else if b == 40 {
        TokenType::LParen
    } else if b == 41 {
        TokenType::RParen
    } else if b == 91 {
        TokenType::LBracket
    } else if b == 93 {
        TokenType::RBracket
    } else if b == 123 {
        TokenType::LBrace
    } else if b == 125 {
        TokenType::RBrace
    } else if b == 46 {
        TokenType::Dot
    } else if b == 44 {
        TokenType::Comma
    } else if b == 58 {
        TokenType::Colon
    } else if b == 63 {
        TokenType::QM
    } else if b == 59 {
        TokenType::SemiColon
    } else {
        TokenType::Other
    }
}

/// The grammar-mode token starting at `j`: brackets, arrows, comparisons
/// and separators keep their meaning; any other byte is one symbol.
pub open spec fn grammar_token(s: Seq<u8>, j: int) -> (TokenType, int) {
    let b = s[j];
    if is_nl(b) {
        (TokenType::NewLine, j + 1)
    } else if b == 45 && j + 1 < s.len() && s[j + 1] == 62 {
        (TokenType::Arrow, j + 2)
    } else if b == 61 && j + 1 < s.len() && s[j + 1] == 62 {
        (TokenType::DArrow, j + 2)
    } else if b == 40 {
        (TokenType::LParen, j + 1)
    } else if b == 41 {
        (TokenType::RParen, j + 1)
    } else if b == 91 {
        (TokenType::LBracket, j + 1)
    } else if b == 93 {
        (TokenType::RBracket, j + 1)
    } else if b == 123 {
        (TokenType::LBrace, j + 1)
    } else if b == 125 {
        (TokenType::RBrace, j + 1)
    } else if b == 60 {
        (TokenType::LT, j + 1)
    } else if b == 62 {
        (TokenType::GT, j + 1)
    } else if b == 58 {
        (TokenType::Colon, j + 1)
    } else if b == 59 {
        (TokenType::SemiColon, j + 1)
    } else {
        (TokenType::Symbol, j + 1)
    }
}

/// The tokenizer: a cursor over the input bytes, in one of two modes.
#[derive(Debug)]
pub struct Lexer<'input> {
    input: &'input [u8],
    offset: usize,
    mode: LexerMode,
}

impl<'input> Lexer<'input> {
    /// The input bytes.
    pub closed spec fn input_of(&self) -> Seq<u8> {
        self.input@
    }

    /// The cursor.
    pub closed spec fn offset_of(&self) -> int {
        self.offset as int
    }

    /// The mode.
    pub closed spec fn mode_of(&self) -> LexerMode {
        self.mode
    }

    /// Creates a lexer at the start of the input.
    pub fn new(input: &'input [u8], mode: LexerMode) -> (l: Self)
        ensures
            l.input_of() == input@,
            l.offset_of() == 0,
            l.mode_of() == mode,
    {
        Lexer { input, offset: 0, mode }
    }

    /// Switches the mode, as the parser drives it.
    pub fn set_mode(&mut self, mode: LexerMode)
        ensures
            final(self).input_of() == old(self).input_of(),
            final(self).offset_of() == old(self).offset_of(),
            final(self).mode_of() == mode,
    {
        self.mode = mode;
    }

    /// Skips whitespace and comments; afterwards the cursor stands on the
    /// next token or at the end.
    fn skip_trivia_exec(&mut self)
        requires
            old(self).offset_of() <= old(self).input_of().len(),
        ensures
            final(self).input_of() == old(self).input_of(),
            final(self).mode_of() == old(self).mode_of(),
            final(self).offset_of() == skip_trivia(old(self).input_of(), old(self).offset_of(), 0),
            old(self).offset_of() <= final(self).offset_of() <= final(self).input_of().len(),
    {
        let ghost s = self.input@;
        let ghost start = self.offset as int;
        let mut st: u8 = 0;
        proof {
            lemma_skip_trivia_bounds(s, start, 0);
        }
        loop
            invariant
                s == old(self).input_of(),
                start == old(self).offset_of(),
                0 <= start <= s.len(),
                self.input@ == s,
                self.mode_of() == old(self).mode_of(),
                self.offset <= s.len(),
                start <= self.offset as int,
                0 <= st <= 3,
                skip_trivia(s, start, 0) == skip_trivia(s, self.offset as int, st as int),
            decreases s.len() - self.offset, st,
        {
            proof {
                lemma_skip_trivia_bounds(s, self.offset as int, st as int);
            }
            if self.offset >= self.input.len() {
                proof {
                    lemma_skip_trivia_bounds(s, start, 0);
                }
                return ;
            }
            let b = self.input[self.offset];
            if st == 0 {
                if b == 32 || b == 9 || b == 11 || b == 12 {
                    self.offset = self.offset + 1;
                } else if b == 47 && self.offset + 1 < self.input.len()
                    && self.input[self.offset + 1] == 47 {
                    self.offset = self.offset + 2;
                    st = 1;
                } else if b == 47 && self.offset + 1 < self.input.len()
                    && self.input[self.offset + 1] == 42 {
                    self.offset = self.offset + 2;
                    st = 2;
                } else {
                    return ;
                }
            } else if st == 1 {
                if b == 10 || b == 13 {
                    st = 0;
                    proof {
                        lemma_skip_trivia_bounds(s, start, 0);
                    }
                    return ;
                } else {
                    self.offset = self.offset + 1;
                }
            } else if st == 2 {
                if b == 42 {
                    st = 3;
                } else {
                }
                self.offset = self.offset + 1;
            } else {
                if b == 47 {
                    st = 0;
                } else if b == 42 {
                } else {
                    st = 2;
                }
                self.offset = self.offset + 1;
            }
        }
    }

    /// The next token: its start, the token, and its end. Nothing at the
    /// end of the input; a lexical error for an unterminated string
    /// literal.
    pub fn next(&mut self) -> (r: Option<Result<(usize, Token<'input>, usize), LexicalError>>)
        requires
            old(self).offset_of() <= old(self).input_of().len(),
        ensures
            final(self).input_of() == old(self).input_of(),
            final(self).mode_of() == old(self).mode_of(),
            final(self).offset_of() <= final(self).input_of().len(),
            ({
                let s = old(self).input_of();
                let j = skip_trivia(s, old(self).offset_of(), 0);
                if j >= s.len() {
                    r is None
                } else if old(self).mode_of() == LexerMode::Grammar {
                    let (tt, e) = grammar_token(s, j);
                    r matches Some(Ok((jj, t, ee))) && jj == j && ee == e && t.ttype == tt
                        && t.bytes@ == s.subrange(j, e) && final(self).offset_of() == e
                } else {
                    match norm_token(s, j) {
                        Some((tt, e)) => r matches Some(Ok((jj, t, ee))) && jj == j && ee == e
                            && t.ttype == tt && t.bytes@ == s.subrange(j, e)
                            && final(self).offset_of() == e,
                        None => r matches Some(Err(LexicalError::TruncatedInput(_))),
                    }
                }
            }),
    {
        let ghost s = self.input@;
        self.skip_trivia_exec();
        let j = self.offset;
        if j >= self.input.len() {
            return None;
        }
        let b = self.input[j];
        match self.mode {
            LexerMode::Grammar => {
                let (tt, e) = self.grammar_mode_next(j, b);
                self.offset = e;
                Some(Ok((j, Token { ttype: tt, bytes: slice_subrange(self.input, j, e) }, e)))
            },
            LexerMode::Normal => {
                match self.normal_mode_next(j, b) {
                    Some((tt, e)) => {
                        self.offset = e;
                        Some(
                            Ok(
                                (
                                    j,
                                    Token { ttype: tt, bytes: slice_subrange(self.input, j, e) },
                                    e,
                                ),
                            ),
                        )
                    },
                    None => {
                        Some(
                            Err(
                                LexicalError::TruncatedInput(
                                    <String as vstd::string::StringExecFns>::from_str(
                                        "unterminated string literal",
                                    ),
                                ),
                            ),
                        )
                    },
                }
            },
        }
    }

    /// Scans one normal-mode token starting at `j`.
    fn normal_mode_next(&self, j: usize, b: u8) -> (r: Option<(TokenType, usize)>)
        requires
            j < self.input_of().len(),
            b == self.input_of()[j as int],
        ensures
            match r {
                Some((tt, e)) => norm_token(self.input_of(), j as int) == Some(
                    (tt, e as int),
                ) && j < e <= self.input_of().len(),
                None => norm_token(self.input_of(), j as int) is None,
            },
    {
        let s = self.input;
        let n = s.len();
        if b == 10 || b == 13 {
            Some((TokenType::NewLine, j + 1))
        } else if (65 <= b && b <= 90) || (97 <= b && b <= 122) || b == 95 {
            Some((TokenType::Id, self.scan_word(j + 1)))
        } else if 48 <= b && b <= 57 {
            let e = self.scan_digits(j + 1);
            if e < n && s[e] == 46 && e + 1 < n && 48 <= s[e + 1] && s[e + 1] <= 57 {
                Some((TokenType::Float, self.scan_digits(e + 2)))
            } else {
                Some((TokenType::Int, e))
            }
        } else if b == 34 {
            match self.scan_string(j + 1) {
                Some(e) => Some((TokenType::StringLit, e)),
                None => None,
            }
        } else if b == 64 {
            Some((TokenType::AtId, self.scan_word(j + 1)))
        } else if b == 61 && j + 1 < n && s[j + 1] == 61 {
            Some((TokenType::EQ, j + 2))
        } else if b == 61 && j + 1 < n && s[j + 1] == 62 {
            Some((TokenType::DArrow, j + 2))
        } else if b == 33 && j + 1 < n && s[j + 1] == 61 {
            Some((TokenType::NE, j + 2))
        } else if b == 60 && j + 1 < n && s[j + 1] == 61 {
            Some((TokenType::LE, j + 2))
        } else if b == 62 && j + 1 < n && s[j + 1] == 61 {
            Some((TokenType::GE, j + 2))
        } else if b == 45 && j + 1 < n && s[j + 1] == 62 {
            Some((TokenType::Arrow, j + 2))
        } else if b == 38 && j + 1 < n && s[j + 1] == 38 {
            Some((TokenType::And, j + 2))
        } else if b == 124 && j + 1 < n && s[j + 1] == 124 {
            Some((TokenType::Or, j + 2))
        } else {
            let tt = match b {
                61 => TokenType::Assign,
                43 => TokenType::Add,
                45 => TokenType::Sub,
                42 => TokenType::Mul,
                47 => TokenType::Div,
                37 => TokenType::Mod,
                94 => TokenType::Pow,
                60 => TokenType::LT,
                62 => TokenType::GT,
                33 => TokenType::Not,
                38 => TokenType::BitAnd,
                124 => TokenType::BitOr,
                126 => TokenType::BitNot,
                40 => TokenType::LParen,
                41 => TokenType::RParen,
                91 => TokenType::LBracket,
                93 => TokenType::RBracket,
                123 => TokenType::LBrace,
                125 => TokenType::RBrace,
                46 => TokenType::Dot,
                44 => TokenType::Comma,
                58 => TokenType::Colon,
                63 => TokenType::QM,
                59 => TokenType::SemiColon,
                _ => TokenType::Other,
            };
            Some((tt, j + 1))
        }
    }

    /// Scans one grammar-mode token starting at `j`.
    fn grammar_mode_next(&self, j: usize, b: u8) -> (r: (TokenType, usize))
        requires
            j < self.input_of().len(),
            b == self.input_of()[j as int],
        ensures
            grammar_token(self.input_of(), j as int) == (r.0, r.1 as int),
            j < r.1 <= self.input_of().len(),
    {
        let s = self.input;
        let n = s.len();
        if b == 10 || b == 13 {
            (TokenType::NewLine, j + 1)
        } else if b == 45 && j + 1 < n && s[j + 1] == 62 {
            (TokenType::Arrow, j + 2)
        } else if b == 61 && j + 1 < n && s[j + 1] == 62 {
            (TokenType::DArrow, j + 2)
        } else {
            let tt = match b {
                40 => TokenType::LParen,
                41 => TokenType::RParen,
                91 => TokenType::LBracket,
                93 => TokenType::RBracket,
                123 => TokenType::LBrace,
                125 => TokenType::RBrace,
                60 => TokenType::LT,
                62 => TokenType::GT,
                58 => TokenType::Colon,
                59 => TokenType::SemiColon,
                _ => TokenType::Symbol,
            };
            (tt, j + 1)
        }
    }

    /// The end of the word run starting at `i`.
    fn scan_word(&self, i: usize) -> (e: usize)
        requires
            i <= self.input_of().len(),
        ensures
            e == word_end(self.input_of(), i as int),
            i <= e <= self.input_of().len(),
    {
        let mut k = i;
        loop
            invariant
                i <= k <= self.input_of().len(),
                word_end(self.input_of(), i as int) == word_end(self.input_of(), k as int),
            decreases self.input_of().len() - k,
        {
            if k >= self.input.len() {
                return k;
            }
            let b = self.input[k];
            if (65 <= b && b <= 90) || (97 <= b && b <= 122) || b == 95 || (48 <= b && b <= 57) {
                k = k + 1;
            } else {
                return k;
            }
        }
    }

    /// The end of the digit run starting at `i`.
    fn scan_digits(&self, i: usize) -> (e: usize)
        requires
            i <= self.input_of().len(),
        ensures
            e == digit_end(self.input_of(), i as int),
            i <= e <= self.input_of().len(),
    {
        let mut k = i;
        loop
            invariant
                i <= k <= self.input_of().len(),
                digit_end(self.input_of(), i as int) == digit_end(self.input_of(), k as int),
            decreases self.input_of().len() - k,
        {
            if k >= self.input.len() {
                return k;
            }
            let b = self.input[k];
            if 48 <= b && b <= 57 {
                k = k + 1;
            } else {
                return k;
            }
        }
    }

    /// One past the closing quote of the string body starting at `i`, or
    /// nothing if the input ends first.
    fn scan_string(&self, i: usize) -> (r: Option<usize>)
        requires
            i <= self.input_of().len(),
        ensures
            match r {
                Some(e) => string_end(self.input_of(), i as int) == Some(e as int) && i < e
                    <= self.input_of().len(),
                None => string_end(self.input_of(), i as int) is None,
            },
    {
        let mut k = i;
        loop
            invariant
                i <= k <= self.input_of().len(),
                string_end(self.input_of(), i as int) == string_end(self.input_of(), k as int),
            decreases self.input_of().len() - k,
        {
            if k >= self.input.len() {
                return None;
            }
            if self.input[k] == 34 {
                return Some(k + 1);
            }
            k = k + 1;
        }
    }
}

/// Trivia skipping never moves backward and stays in bounds.
pub proof fn lemma_skip_trivia_bounds(s: Seq<u8>, i: int, st: int)
    requires
        0 <= i,
    ensures
        skip_trivia(s, i, st) <= s.len(),
        i <= s.len() ==> i <= skip_trivia(s, i, st),
    decreases s.len() - i,
{
    if i < s.len() {
        if st == 0 {
            if is_ws(s[i]) {
                lemma_skip_trivia_bounds(s, i + 1, 0);
            } else if s[i] == 47 && i + 1 < s.len() && s[i + 1] == 47 {
                lemma_skip_trivia_bounds(s, i + 2, 1);
            } else if s[i] == 47 && i + 1 < s.len() && s[i + 1] == 42 {
                lemma_skip_trivia_bounds(s, i + 2, 2);
            }
        } else if st == 1 {
            if !is_nl(s[i]) {
                lemma_skip_trivia_bounds(s, i + 1, 1);
            }
        } else if st == 2 {
            if s[i] == 42 {
                lemma_skip_trivia_bounds(s, i + 1, 3);
            } else {
                lemma_skip_trivia_bounds(s, i + 1, 2);
            }
        } else {
            if s[i] == 47 {
                lemma_skip_trivia_bounds(s, i + 1, 0);
            } else if s[i] == 42 {
                lemma_skip_trivia_bounds(s, i + 1, 3);
            } else {
                lemma_skip_trivia_bounds(s, i + 1, 2);
            }
        }
    }
}

} // verus!
