//! Token vocabulary, lexical errors, and the tokenizer itself.

use vstd::prelude::*;
use vstd::string::StrSliceExecFns;

use crate::scan::{
    col_of, digit_val, digits_end, is_digit_char, is_letter_char, is_space_char, is_word_char,
    lemma_row_col_bounds, lemma_val_of_digits_step, lex_result_model, row_of, spec_keyword,
    spec_next, str_end, val_of_digits, word_end, ws_end, LexErrorModel, TokenModel,
};

verus! {

/// The fixed keyword vocabulary of the language.
///
/// `ElseIf` is registered in the keyword table under the two-word spelling
/// `"else if"`, but word scanning never produces a lexeme containing a space,
/// so the scanner itself can never yield it; see
/// [`crate::scan::lemma_else_if_unreachable`].
#[derive(Debug, PartialEq, Eq, Clone, Copy)]
pub enum KeywordType {
    Fn,
    Return,
    Print,
    If,
    ElseIf,
    Else,
    Let,
}

/// One classified lexical unit of source text.
#[derive(Debug, PartialEq, Eq, Clone)]
pub enum Token {
    Keyword(KeywordType),
    Identifier(String),
    IntegerLiteral(i64),
    StringLiteral(String),
    LeftBrace,
    RightBrace,
    RightBracket,
    LeftBracket,
    LessThan,
    GreaterThan,
    Colon,
    LeftParenthesis,
    RightParenthesis,
    Semicolon,
    Comma,
    Assignment,
    Minus,
    Plus,
    Multiplication,
    EndOfFile,
}

/// A fatal lexical error: scanning cannot continue past it.
///
/// `row` and `col` are 1-based positions in the source text.
/// `MalformedNumber` carries the position just past the offending digit run;
/// `UnexpectedCharacter` carries the offending character and its own position.
#[derive(Debug, PartialEq, Eq, Clone, Copy)]
pub enum LexError {
    MalformedNumber { row: usize, col: usize },
    UnexpectedCharacter { ch: char, row: usize, col: usize },
}

/// Looks a word up in the keyword table (case-sensitive, exact match).
pub fn identify_keyword(word: &str) -> (r: Option<KeywordType>)
    ensures
        r == spec_keyword(word@),
{
    let n = word.unicode_len();
    if n == 2 && word.get_char(0) == 'f' && word.get_char(1) == 'n' {
        proof {
            assert(word@ =~= seq!['f', 'n']);
        }
        Some(KeywordType::Fn)
    } else if n == 6 && word.get_char(0) == 'r' && word.get_char(1) == 'e' && word.get_char(2)
        == 't' && word.get_char(3) == 'u' && word.get_char(4) == 'r' && word.get_char(5) == 'n' {
        proof {
            assert(word@ =~= seq!['r', 'e', 't', 'u', 'r', 'n']);
        }
        Some(KeywordType::Return)
    } else if n == 5 && word.get_char(0) == 'p' && word.get_char(1) == 'r' && word.get_char(2)
        == 'i' && word.get_char(3) == 'n' && word.get_char(4) == 't' {
        proof {
            assert(word@ =~= seq!['p', 'r', 'i', 'n', 't']);
        }
        Some(KeywordType::Print)
    } else if n == 3 && word.get_char(0) == 'l' && word.get_char(1) == 'e' && word.get_char(2)
        == 't' {
        proof {
            assert(word@ =~= seq!['l', 'e', 't']);
        }
        Some(KeywordType::Let)
    } else if n == 2 && word.get_char(0) == 'i' && word.get_char(1) == 'f' {
        proof {
            assert(word@ =~= seq!['i', 'f']);
        }
        Some(KeywordType::If)
    } else if n == 4 && word.get_char(0) == 'e' && word.get_char(1) == 'l' && word.get_char(2)
        == 's' && word.get_char(3) == 'e' {
        proof {
            assert(word@ =~= seq!['e', 'l', 's', 'e']);
        }
        Some(KeywordType::Else)
    } else if n == 7 && word.get_char(0) == 'e' && word.get_char(1) == 'l' && word.get_char(2)
        == 's' && word.get_char(3) == 'e' && word.get_char(4) == ' ' && word.get_char(5) == 'i'
        && word.get_char(6) == 'f' {
        proof {
            assert(word@ =~= seq!['e', 'l', 's', 'e', ' ', 'i', 'f']);
        }
        Some(KeywordType::ElseIf)
    } else {
        None
    }
}

/// Whether `c` is whitespace (space, tab, newline or carriage return).
fn is_space(c: char) -> (r: bool)
    ensures
        r == is_space_char(c),
{
    c == ' ' || c == '\t' || c == '\n' || c == '\r'
}

/// Whether `c` is a decimal digit.
fn is_digit(c: char) -> (r: bool)
    ensures
        r == is_digit_char(c),
{
    let u = c as u32;
    ('0' as u32) <= u && u <= ('9' as u32)
}

/// Whether `c` is a letter.
fn is_letter(c: char) -> (r: bool)
    ensures
        r == is_letter_char(c),
{
    let u = c as u32;
    (('a' as u32) <= u && u <= ('z' as u32)) || (('A' as u32) <= u && u <= ('Z' as u32))
}

/// The numeric value of a decimal digit.
fn digit_value(c: char) -> (d: u32)
    requires
        is_digit_char(c),
    ensures
        d == digit_val(c),
        d <= 9,
{
    c as u32 - '0' as u32
}

/// The scanner: owns the source text and a cursor into it, and produces one
/// classified token per call of [`Lexer::next_token`].
#[derive(Debug)]
pub struct Lexer {
    src: String,
    index: usize,
    size: usize,
    file_name: String,
    row: usize,
    col: usize,
    err: Option<LexError>,
}

impl Lexer {
    /// The source text under scan, as a character sequence.
    pub closed spec fn src_seq(&self) -> Seq<char> {
        self.src@
    }

    /// The cursor: how many characters have been consumed.
    pub closed spec fn pos(&self) -> int {
        self.index as int
    }

    /// The diagnostic label the scanner was built with.
    pub closed spec fn label(&self) -> Seq<char> {
        self.file_name@
    }

    /// The fatal error already produced, if any: once set, every further call
    /// of [`Lexer::next_token`] returns it again.
    pub closed spec fn failure(&self) -> Option<LexError> {
        self.err
    }

    /// The scanner's invariant: the cursor lies within the text and the
    /// row/column bookkeeping agrees with the cursor.
    pub closed spec fn wf(&self) -> bool {
        &&& self.size == self.src@.len()
        &&& self.src@.len() < usize::MAX
        &&& self.index <= self.size
        &&& self.row == row_of(self.src@, self.index as int)
        &&& self.col == col_of(self.src@, self.index as int)
    }

    /// Builds a scanner over `src`, with `name` as the diagnostic label,
    /// cursor at the first character, row 1, column 1.
    pub fn new(src: &str, name: &str) -> (r: Lexer)
        requires
            src@.len() < usize::MAX,
        ensures
            r.wf(),
            r.src_seq() == src@,
            r.pos() == 0,
            r.label() == name@,
            r.failure() is None,
    {
        let size = src.unicode_len();
        Lexer {
            src: src.to_owned(),
            index: 0,
            size,
            file_name: name.to_owned(),
            row: 1,
            col: 1,
            err: None,
        }
    }

    /// The 1-based row the cursor stands at.
    pub fn row(&self) -> (r: usize)
        requires
            self.wf(),
        ensures
            r == row_of(self.src_seq(), self.pos()),
    {
        self.row
    }

    /// The 1-based column the cursor stands at.
    pub fn col(&self) -> (r: usize)
        requires
            self.wf(),
        ensures
            r == col_of(self.src_seq(), self.pos()),
    {
        self.col
    }

    /// The character under the cursor, if any.
    fn current(&self) -> (r: Option<char>)
        requires
            self.wf(),
        ensures
            r == if self.pos() < self.src_seq().len() {
                Some(self.src_seq()[self.pos()])
            } else {
                None::<char>
            },
    {
        if self.index < self.size {
            Some(self.src.as_str().get_char(self.index))
        } else {
            None
        }
    }

    /// Consumes the character under the cursor, keeping the row/column
    /// bookkeeping in step, and returns it; `None` at the end of the text.
    fn next(&mut self) -> (r: Option<char>)
        requires
            old(self).wf(),
        ensures
            final(self).wf(),
            final(self).src_seq() == old(self).src_seq(),
            final(self).label() == old(self).label(),
            final(self).failure() == old(self).failure(),
            old(self).pos() < old(self).src_seq().len() ==> {
                &&& r == Some(old(self).src_seq()[old(self).pos()])
                &&& final(self).pos() == old(self).pos() + 1
            },
            old(self).pos() >= old(self).src_seq().len() ==> {
                &&& r is None
                &&& final(self).pos() == old(self).pos()
            },
    {
        if self.index < self.size {
            let c = self.src.as_str().get_char(self.index);
            proof {
                lemma_row_col_bounds(self.src@, self.index as int);
            }
            self.index = self.index + 1;
            if c == '\n' {
                self.row = self.row + 1;
                self.col = 1;
            } else {
                self.col = self.col + 1;
            }
            Some(c)
        } else {
            None
        }
    }

    /// Advances the cursor past the maximal whitespace run under it.
    fn skip_whitespaces(&mut self)
        requires
            old(self).wf(),
        ensures
            final(self).wf(),
            final(self).src_seq() == old(self).src_seq(),
            final(self).label() == old(self).label(),
            final(self).failure() == old(self).failure(),
            final(self).pos() == ws_end(old(self).src_seq(), old(self).pos()),
    {
        loop
            invariant
                self.wf(),
                self.src_seq() == old(self).src_seq(),
                self.label() == old(self).label(),
                self.failure() == old(self).failure(),
                old(self).pos() <= self.pos() <= self.src_seq().len(),
                ws_end(self.src_seq(), self.pos()) == ws_end(old(self).src_seq(), old(self).pos()),
            ensures
                self.pos() == self.src_seq().len() || !is_space_char(
                    self.src_seq()[self.pos()],
                ),
            decreases self.src_seq().len() - self.pos(),
        {
            match self.current() {
                Some(c) => {
                    if is_space(c) {
                        self.next();
                    } else {
                        break ;
                    }
                },
                None => {
                    break ;
                },
            }
        }
    }

    /// Scans the maximal digit run whose first character `c` has just been
    /// consumed, and parses it as a signed integer. A run whose value
    /// overflows the representable range is the malformed-number error,
    /// carrying the position just past the run.
    fn lax_number(&mut self, c: char) -> (r: Result<Token, LexError>)
        requires
            old(self).wf(),
            1 <= old(self).pos(),
            old(self).src_seq()[old(self).pos() - 1] == c,
            is_digit_char(c),
        ensures
            final(self).wf(),
            final(self).src_seq() == old(self).src_seq(),
            final(self).label() == old(self).label(),
            final(self).failure() == old(self).failure(),
            ({
                let s = old(self).src_seq();
                let start = old(self).pos() - 1;
                let j = digits_end(s, start);
                let v = val_of_digits(s.subrange(start, j));
                &&& final(self).pos() == j
                &&& (v <= i64::MAX ==> lex_result_model(r) == Ok::<TokenModel, LexErrorModel>(
                    TokenModel::IntegerLiteral(v),
                ))
                &&& (v > i64::MAX ==> lex_result_model(r) == Err::<TokenModel, LexErrorModel>(
                    LexErrorModel::MalformedNumber { row: row_of(s, j), col: col_of(s, j) },
                ))
            }),
    {
        let ghost s = self.src@;
        let ghost start = self.index as int - 1;
        let mut acc: i64 = digit_value(c) as i64;
        let mut overflow: bool = false;
        proof {
            assert(s.subrange(start, self.index as int) =~= seq![c]);
            assert(seq![c].drop_last() =~= Seq::<char>::empty());
            assert(val_of_digits(Seq::<char>::empty()) == 0);
            assert(val_of_digits(seq![c]) == digit_val(c));
        }
        loop
            invariant
                self.wf(),
                self.src_seq() == s,
                s == old(self).src_seq(),
                self.label() == old(self).label(),
                self.failure() == old(self).failure(),
                start == old(self).pos() - 1,
                0 <= start < self.pos() <= s.len(),
                digits_end(s, self.pos()) == digits_end(s, start),
                !overflow ==> 0 <= acc && acc == val_of_digits(s.subrange(start, self.pos())),
                overflow ==> val_of_digits(s.subrange(start, self.pos())) > i64::MAX,
            ensures
                self.pos() == s.len() || !is_digit_char(s[self.pos()]),
            decreases s.len() - self.pos(),
        {
            match self.current() {
                Some(nc) => {
                    if is_digit(nc) {
                        proof {
                            lemma_val_of_digits_step(s, start, self.pos());
                        }
                        let d = digit_value(nc);
                        if !overflow {
                            match acc.checked_mul(10) {
                                Some(m) => {
                                    match m.checked_add(d as i64) {
                                        Some(a) => {
                                            acc = a;
                                        },
                                        None => {
                                            overflow = true;
                                        },
                                    }
                                },
                                None => {
                                    overflow = true;
                                },
                            }
                        }
                        self.next();
                    } else {
                        break ;
                    }
                },
                None => {
                    break ;
                },
            }
        }
        proof {
            assert(digits_end(s, self.pos()) == self.pos());
        }
        if overflow {
            Err(LexError::MalformedNumber { row: self.row, col: self.col })
        } else {
            Ok(Token::IntegerLiteral(acc))
        }
    }

    /// Scans the maximal word (letters and digits) whose first character `c`
    /// has just been consumed, and classifies it: a keyword where the word
    /// matches the keyword table exactly, an identifier otherwise.
    fn lax_identifier(&mut self, c: char) -> (r: Token)
        requires
            old(self).wf(),
            1 <= old(self).pos(),
            old(self).src_seq()[old(self).pos() - 1] == c,
            is_letter_char(c),
        ensures
            final(self).wf(),
            final(self).src_seq() == old(self).src_seq(),
            final(self).label() == old(self).label(),
            final(self).failure() == old(self).failure(),
            ({
                let s = old(self).src_seq();
                let start = old(self).pos() - 1;
                let j = word_end(s, start);
                let w = s.subrange(start, j);
                &&& final(self).pos() == j
                &&& r@ == (match spec_keyword(w) {
                    Some(k) => TokenModel::Keyword(k),
                    None => TokenModel::Identifier(w),
                })
            }),
    {
        let ghost s = self.src@;
        let start = self.index - 1;
        loop
            invariant
                self.wf(),
                self.src_seq() == s,
                s == old(self).src_seq(),
                self.label() == old(self).label(),
                self.failure() == old(self).failure(),
                start as int == old(self).pos() - 1,
                old(self).pos() <= self.pos() <= s.len(),
                word_end(s, self.pos()) == word_end(s, start as int),
            ensures
                self.pos() == s.len() || !is_word_char(s[self.pos()]),
            decreases s.len() - self.pos(),
        {
            match self.current() {
                Some(nc) => {
                    if is_letter(nc) || is_digit(nc) {
                        self.next();
                    } else {
                        break ;
                    }
                },
                None => {
                    break ;
                },
            }
        }
        proof {
            assert(word_end(s, self.pos()) == self.pos());
        }
        let text = self.src.as_str().substring_char(start, self.index).to_owned();
        match identify_keyword(text.as_str()) {
            Some(keyword) => Token::Keyword(keyword),
            None => Token::Identifier(text),
        }
    }

    /// Scans a string literal: the opening quote (handed in as `c`) has just
    /// been consumed; characters are taken verbatim up to the next double
    /// quote, which is consumed but excluded, or up to the end of the text
    /// when the literal is unterminated — a deliberate leniency, not an
    /// error.
    #[allow(unused_variables)]
    fn lax_string_literal(&mut self, c: char) -> (r: Token)
        requires
            old(self).wf(),
        ensures
            final(self).wf(),
            final(self).src_seq() == old(self).src_seq(),
            final(self).label() == old(self).label(),
            final(self).failure() == old(self).failure(),
            ({
                let s = old(self).src_seq();
                let start = old(self).pos();
                let j = str_end(s, start);
                &&& final(self).pos() == (if j < s.len() {
                    j + 1
                } else {
                    j
                })
                &&& r@ == TokenModel::StringLiteral(s.subrange(start, j))
            }),
    {
        let ghost s = self.src@;
        let start = self.index;
        loop
            invariant
                self.wf(),
                self.src_seq() == s,
                s == old(self).src_seq(),
                self.label() == old(self).label(),
                self.failure() == old(self).failure(),
                start as int == old(self).pos(),
                old(self).pos() <= self.pos() <= s.len(),
                str_end(s, self.pos()) == str_end(s, start as int),
            ensures
                self.pos() == s.len() || s[self.pos()] == '"',
            decreases s.len() - self.pos(),
        {
            match self.current() {
                Some(nc) => {
                    if nc != '"' {
                        self.next();
                    } else {
                        break ;
                    }
                },
                None => {
                    break ;
                },
            }
        }
        proof {
            assert(str_end(s, self.pos()) == self.pos());
        }
        let text = self.src.as_str().substring_char(start, self.index).to_owned();
        if self.index < self.size {
            self.next();
        }
        Token::StringLiteral(text)
    }

    /// Produces the next token of the source text, or the fatal lexical
    /// error that stops the scan.
    ///
    /// Whitespace before the token is skipped; at the end of the text the
    /// end-of-input token is produced, again and again on every further call.
    /// After a fatal error, every further call returns that same error: the
    /// scan yields no further token.
    pub fn next_token(&mut self) -> (r: Result<Token, LexError>)
        requires
            old(self).wf(),
        ensures
            final(self).wf(),
            final(self).src_seq() == old(self).src_seq(),
            final(self).label() == old(self).label(),
            old(self).failure() is Some ==> {
                &&& r == Err::<Token, LexError>(old(self).failure().unwrap())
                &&& *final(self) == *old(self)
            },
            old(self).failure() is None ==> {
                let step = spec_next(old(self).src_seq(), old(self).pos());
                &&& lex_result_model(r) == step.result
                &&& final(self).pos() == step.end
                &&& final(self).failure() == (match r {
                    Ok(_) => None::<LexError>,
                    Err(e) => Some(e),
                })
            },
    {
        match &self.err {
            Some(e) => {
                return Err(*e);
            },
            None => {},
        }
        self.skip_whitespaces();
        let prow = self.row;
        let pcol = self.col;
        let res: Result<Token, LexError> = match self.next() {
            None => Ok(Token::EndOfFile),
            Some(ch) => {
                if ch == '{' {
                    Ok(Token::LeftBrace)
                } else if ch == '}' {
                    Ok(Token::RightBrace)
                } else if ch == '(' {
                    Ok(Token::LeftParenthesis)
                } else if ch == ')' {
                    Ok(Token::RightParenthesis)
                } else if ch == '[' {
                    Ok(Token::LeftBracket)
                } else if ch == ']' {
                    Ok(Token::RightBracket)
                } else if ch == ',' {
                    Ok(Token::Comma)
                } else if ch == ';' {
                    Ok(Token::Semicolon)
                } else if ch == ':' {
                    Ok(Token::Colon)
                } else if ch == '=' {
                    Ok(Token::Assignment)
                } else if ch == '>' {
                    Ok(Token::GreaterThan)
                } else if ch == '<' {
                    Ok(Token::LessThan)
                } else if ch == '+' {
                    Ok(Token::Plus)
                } else if ch == '-' {
                    Ok(Token::Minus)
                } else if ch == '*' {
                    Ok(Token::Multiplication)
                } else if is_digit(ch) {
                    self.lax_number(ch)
                } else if is_letter(ch) {
                    Ok(self.lax_identifier(ch))
                } else if ch == '"' {
                    Ok(self.lax_string_literal(ch))
                } else {
                    Err(LexError::UnexpectedCharacter { ch, row: prow, col: pcol })
                }
            },
        };
        match &res {
            Ok(_) => {},
            Err(e) => {
                self.err = Some(*e);
            },
        }
        res
    }
}

impl Clone for Lexer {
    /// The copy is in the same state as the original: same text, same cursor,
    /// same bookkeeping.
    fn clone(&self) -> (r: Self)
        ensures
            r == *self,
    {
        Lexer {
            src: self.src.clone(),
            index: self.index,
            size: self.size,
            file_name: self.file_name.clone(),
            row: self.row,
            col: self.col,
            err: self.err,
        }
    }
}

} // verus!
