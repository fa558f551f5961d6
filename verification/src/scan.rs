//! Mathematical model of the scan.
//!
//! Everything here is specification-level: it describes, over a `Seq<char>`
//! view of the source text, which token begins at a given position, where it
//! ends, and what row/column a position lies at. The executable tokenizer in
//! [`crate::lexer`] is verified against this model.

use vstd::prelude::*;

use crate::lexer::{KeywordType, LexError, Token};

verus! {

broadcast use vstd::seq::group_seq_axioms;

// ---------------------------------------------------------------------------
// Character classes
// ---------------------------------------------------------------------------
/// Whitespace: consumed between tokens, never part of one (except inside a
/// string literal).
pub open spec fn is_space_char(c: char) -> bool {
    c == ' ' || c == '\t' || c == '\n' || c == '\r'
}

/// A decimal digit.
pub open spec fn is_digit_char(c: char) -> bool {
    '0' <= c && c <= '9'
}

/// A letter, as far as word scanning is concerned.
pub open spec fn is_letter_char(c: char) -> bool {
    ('a' <= c && c <= 'z') || ('A' <= c && c <= 'Z')
}

/// A character that may continue a word: words start with a letter and go on
/// with letters and digits.
pub open spec fn is_word_char(c: char) -> bool {
    is_letter_char(c) || is_digit_char(c)
}

/// The numeric value of a decimal digit.
pub open spec fn digit_val(c: char) -> int {
    c as int - '0' as int
}

// ---------------------------------------------------------------------------
// Token and error models
// ---------------------------------------------------------------------------
/// Mathematical image of a [`Token`]: textual payloads as character
/// sequences, the integer payload unbounded.
pub ghost enum TokenModel {
    Keyword(KeywordType),
    Identifier(Seq<char>),
    IntegerLiteral(int),
    StringLiteral(Seq<char>),
    LeftBrace,
    RightBrace,
    RightBracket,
    LeftBracket,
    LessThan,
    GreaterThan,
    Colon,
    LeftParenthesis,
    RightParenthesis,
    Semicolon,
    Comma,
    Assignment,
    Minus,
    Plus,
    Multiplication,
    EndOfFile,
}

impl View for Token {
    type V = TokenModel;

    open spec fn view(&self) -> TokenModel {
        match self {
            Token::Keyword(k) => TokenModel::Keyword(*k),
            Token::Identifier(t) => TokenModel::Identifier(t@),
            Token::IntegerLiteral(v) => TokenModel::IntegerLiteral(*v as int),
            Token::StringLiteral(t) => TokenModel::StringLiteral(t@),
            Token::LeftBrace => TokenModel::LeftBrace,
            Token::RightBrace => TokenModel::RightBrace,
            Token::RightBracket => TokenModel::RightBracket,
            Token::LeftBracket => TokenModel::LeftBracket,
            Token::LessThan => TokenModel::LessThan,
            Token::GreaterThan => TokenModel::GreaterThan,
            Token::Colon => TokenModel::Colon,
            Token::LeftParenthesis => TokenModel::LeftParenthesis,
            Token::RightParenthesis => TokenModel::RightParenthesis,
            Token::Semicolon => TokenModel::Semicolon,
            Token::Comma => TokenModel::Comma,
            Token::Assignment => TokenModel::Assignment,
            Token::Minus => TokenModel::Minus,
            Token::Plus => TokenModel::Plus,
            Token::Multiplication => TokenModel::Multiplication,
            Token::EndOfFile => TokenModel::EndOfFile,
        }
    }
}

/// Mathematical image of a [`LexError`]: positions as unbounded integers.
pub ghost enum LexErrorModel {
    MalformedNumber { row: int, col: int },
    UnexpectedCharacter { ch: char, row: int, col: int },
}

impl View for LexError {
    type V = LexErrorModel;

    open spec fn view(&self) -> LexErrorModel {
        match self {
            LexError::MalformedNumber { row, col } => LexErrorModel::MalformedNumber {
                row: *row as int,
                col: *col as int,
            },
            LexError::UnexpectedCharacter { ch, row, col } => LexErrorModel::UnexpectedCharacter {
                ch: *ch,
                row: *row as int,
                col: *col as int,
            },
        }
    }
}

/// The image of a tokenizing result under the two views above.
pub open spec fn lex_result_model(r: Result<Token, LexError>) -> Result<TokenModel, LexErrorModel> {
    match r {
        Ok(t) => Ok(t@),
        Err(e) => Err(e@),
    }
}

/// The fixed token for a single-character punctuation mark, or `None` when
/// the character is not one.
pub open spec fn spec_punct(c: char) -> Option<TokenModel> {
    if c == '{' {
        Some(TokenModel::LeftBrace)
    } else if c == '}' {
        Some(TokenModel::RightBrace)
    } else if c == '(' {
        Some(TokenModel::LeftParenthesis)
    } else if c == ')' {
        Some(TokenModel::RightParenthesis)
    } else if c == '[' {
        Some(TokenModel::LeftBracket)
    } else if c == ']' {
        Some(TokenModel::RightBracket)
    } else if c == ',' {
        Some(TokenModel::Comma)
    } else if c == ';' {
        Some(TokenModel::Semicolon)
    } else if c == ':' {
        Some(TokenModel::Colon)
    } else if c == '=' {
        Some(TokenModel::Assignment)
    } else if c == '>' {
        Some(TokenModel::GreaterThan)
    } else if c == '<' {
        Some(TokenModel::LessThan)
    } else if c == '+' {
        Some(TokenModel::Plus)
    } else if c == '-' {
        Some(TokenModel::Minus)
    } else if c == '*' {
        Some(TokenModel::Multiplication)
    } else {
        None
    }
}

/// The keyword table (case-sensitive, exact spellings).
///
/// The two-word spelling `"else if"` is listed to mirror the table the
/// tokenizer consults, but no scanned word ever matches it, since word
/// scanning never includes a space; see [`lemma_else_if_unreachable`].
pub open spec fn spec_keyword(w: Seq<char>) -> Option<KeywordType> {
    if w == seq!['f', 'n'] {
        Some(KeywordType::Fn)
    } else if w == seq!['r', 'e', 't', 'u', 'r', 'n'] {
        Some(KeywordType::Return)
    } else if w == seq!['p', 'r', 'i', 'n', 't'] {
        Some(KeywordType::Print)
    } else if w == seq!['l', 'e', 't'] {
        Some(KeywordType::Let)
    } else if w == seq!['i', 'f'] {
        Some(KeywordType::If)
    } else if w == seq!['e', 'l', 's', 'e'] {
        Some(KeywordType::Else)
    } else if w == seq!['e', 'l', 's', 'e', ' ', 'i', 'f'] {
        Some(KeywordType::ElseIf)
    } else {
        None
    }
}

// ---------------------------------------------------------------------------
// Maximal runs
// ---------------------------------------------------------------------------
/// End of the maximal whitespace run starting at `i`: the first position at
/// or after `i` that holds a non-whitespace character, or the end of the
/// text.
pub open spec fn ws_end(s: Seq<char>, i: int) -> int
    decreases s.len() - i,
{
    if i < 0 || i >= s.len() {
        i
    } else if is_space_char(s[i]) {
        ws_end(s, i + 1)
    } else {
        i
    }
}

/// End of the maximal digit run starting at `i`.
pub open spec fn digits_end(s: Seq<char>, i: int) -> int
    decreases s.len() - i,
{
    if i < 0 || i >= s.len() {
        i
    } else if is_digit_char(s[i]) {
        digits_end(s, i + 1)
    } else {
        i
    }
}

/// End of the maximal word run starting at `i`.
pub open spec fn word_end(s: Seq<char>, i: int) -> int
    decreases s.len() - i,
{
    if i < 0 || i >= s.len() {
        i
    } else if is_word_char(s[i]) {
        word_end(s, i + 1)
    } else {
        i
    }
}

/// Position of the closing double quote at or after `i`, or the end of the
/// text when the literal is unterminated.
pub open spec fn str_end(s: Seq<char>, i: int) -> int
    decreases s.len() - i,
{
    if i < 0 || i >= s.len() {
        i
    } else if s[i] != '"' {
        str_end(s, i + 1)
    } else {
        i
    }
}

/// The maximal whitespace run stays within the text, all its characters are
/// whitespace, and the character just past it (if any) is not.
pub proof fn lemma_ws_end_props(s: Seq<char>, i: int)
    requires
        0 <= i <= s.len(),
    ensures
        i <= ws_end(s, i) <= s.len(),
        forall|k: int| i <= k < ws_end(s, i) ==> is_space_char(#[trigger] s[k]),
        ws_end(s, i) == s.len() || !is_space_char(s[ws_end(s, i)]),
    decreases s.len() - i,
{
    if i < s.len() && is_space_char(s[i]) {
        lemma_ws_end_props(s, i + 1);
    }
}

/// The maximal digit run stays within the text, all its characters are
/// digits, and the character just past it (if any) is not.
pub proof fn lemma_digits_end_props(s: Seq<char>, i: int)
    requires
        0 <= i <= s.len(),
    ensures
        i <= digits_end(s, i) <= s.len(),
        forall|k: int| i <= k < digits_end(s, i) ==> is_digit_char(#[trigger] s[k]),
        digits_end(s, i) == s.len() || !is_digit_char(s[digits_end(s, i)]),
    decreases s.len() - i,
{
    if i < s.len() && is_digit_char(s[i]) {
        lemma_digits_end_props(s, i + 1);
    }
}

/// The maximal word run stays within the text, all its characters are word
/// characters, and the character just past it (if any) is not.
pub proof fn lemma_word_end_props(s: Seq<char>, i: int)
    requires
        0 <= i <= s.len(),
    ensures
        i <= word_end(s, i) <= s.len(),
        forall|k: int| i <= k < word_end(s, i) ==> is_word_char(#[trigger] s[k]),
        word_end(s, i) == s.len() || !is_word_char(s[word_end(s, i)]),
    decreases s.len() - i,
{
    if i < s.len() && is_word_char(s[i]) {
        lemma_word_end_props(s, i + 1);
    }
}

/// Up to the closing quote (or the end of the text) no character is a quote,
/// and the position reached holds a quote unless the text ran out.
pub proof fn lemma_str_end_props(s: Seq<char>, i: int)
    requires
        0 <= i <= s.len(),
    ensures
        i <= str_end(s, i) <= s.len(),
        forall|k: int| i <= k < str_end(s, i) ==> #[trigger] s[k] != '"',
        str_end(s, i) == s.len() || s[str_end(s, i)] == '"',
    decreases s.len() - i,
{
    if i < s.len() && s[i] != '"' {
        lemma_str_end_props(s, i + 1);
    }
}

// ---------------------------------------------------------------------------
// Numeric value of a digit run
// ---------------------------------------------------------------------------
/// The value of a run of decimal digits, most significant first.
pub open spec fn val_of_digits(w: Seq<char>) -> int
    decreases w.len(),
{
    if w.len() == 0 {
        0
    } else {
        val_of_digits(w.drop_last()) * 10 + digit_val(w.last())
    }
}

/// Extending a digit run by one digit multiplies its value by ten and adds
/// the digit.
pub proof fn lemma_val_of_digits_step(s: Seq<char>, start: int, pos: int)
    requires
        0 <= start <= pos < s.len(),
    ensures
        val_of_digits(s.subrange(start, pos + 1)) == val_of_digits(s.subrange(start, pos)) * 10
            + digit_val(s[pos]),
{
    let w = s.subrange(start, pos + 1);
    assert(w.drop_last() =~= s.subrange(start, pos));
    assert(w.last() == s[pos]);
}

// ---------------------------------------------------------------------------
// Row and column tracking
// ---------------------------------------------------------------------------
/// The 1-based row of position `i`: one more than the number of newlines
/// before it.
pub open spec fn row_of(s: Seq<char>, i: int) -> int
    decreases i,
{
    if i <= 0 {
        1
    } else if s[i - 1] == '\n' {
        row_of(s, i - 1) + 1
    } else {
        row_of(s, i - 1)
    }
}

/// The 1-based column of position `i`: how far it lies past the last newline
/// before it.
pub open spec fn col_of(s: Seq<char>, i: int) -> int
    decreases i,
{
    if i <= 0 {
        1
    } else if s[i - 1] == '\n' {
        1
    } else {
        col_of(s, i - 1) + 1
    }
}

/// Rows and columns stay between 1 and one past the position.
pub proof fn lemma_row_col_bounds(s: Seq<char>, i: int)
    requires
        0 <= i,
    ensures
        1 <= row_of(s, i) <= i + 1,
        1 <= col_of(s, i) <= i + 1,
    decreases i,
{
    if i > 0 {
        lemma_row_col_bounds(s, i - 1);
    }
}

// ---------------------------------------------------------------------------
// One scanning step
// ---------------------------------------------------------------------------
/// The outcome of one "produce next token" step: the classified token or the
/// fatal error, and the cursor position after it.
pub ghost struct ScanStep {
    pub result: Result<TokenModel, LexErrorModel>,
    pub end: int,
}

/// What one call of the tokenizer produces from position `i` of source `s`,
/// and where it leaves the cursor.
///
/// Whitespace before the token is skipped first; then the token is classified
/// by its first character. A digit run whose value exceeds `i64::MAX` and a
/// character of no recognized class (the null character included) are the two
/// fatal errors.
pub open spec fn spec_next(s: Seq<char>, i: int) -> ScanStep {
    let p = ws_end(s, i);
    if p >= s.len() {
        ScanStep { result: Ok(TokenModel::EndOfFile), end: p }
    } else {
        let c = s[p];
        match spec_punct(c) {
            Some(t) => ScanStep { result: Ok(t), end: p + 1 },
            None => {
                if is_digit_char(c) {
                    let j = digits_end(s, p);
                    let v = val_of_digits(s.subrange(p, j));
                    if v <= i64::MAX {
                        ScanStep { result: Ok(TokenModel::IntegerLiteral(v)), end: j }
                    } else {
                        ScanStep {
                            result: Err(
                                LexErrorModel::MalformedNumber {
                                    row: row_of(s, j),
                                    col: col_of(s, j),
                                },
                            ),
                            end: j,
                        }
                    }
                } else if is_letter_char(c) {
                    let j = word_end(s, p);
                    let w = s.subrange(p, j);
                    match spec_keyword(w) {
                        Some(k) => ScanStep { result: Ok(TokenModel::Keyword(k)), end: j },
                        None => ScanStep { result: Ok(TokenModel::Identifier(w)), end: j },
                    }
                } else if c == '"' {
                    let j = str_end(s, p + 1);
                    let text = s.subrange(p + 1, j);
                    let e = if j < s.len() {
                        j + 1
                    } else {
                        j
                    };
                    ScanStep { result: Ok(TokenModel::StringLiteral(text)), end: e }
                } else {
                    ScanStep {
                        result: Err(
                            LexErrorModel::UnexpectedCharacter {
                                ch: c,
                                row: row_of(s, p),
                                col: col_of(s, p),
                            },
                        ),
                        end: p + 1,
                    }
                }
            },
        }
    }
}

/// The tokens a scan started at position `i` produces, in order, up to the
/// end-of-input token or a fatal error (neither of which is listed: after
/// either, the scan yields no further token).
pub open spec fn token_stream(s: Seq<char>, i: int) -> Seq<TokenModel>
    decreases s.len() - i,
        when 0 <= i <= s.len()
        via token_stream_decreases
{
    let step = spec_next(s, i);
    match step.result {
        Ok(TokenModel::EndOfFile) => seq![],
        Ok(t) => seq![t] + token_stream(s, step.end),
        Err(_) => seq![],
    }
}

#[via_fn]
proof fn token_stream_decreases(s: Seq<char>, i: int) {
    lemma_spec_next_bounds(s, i);
}

/// A scanning step stays within the text, and moves the cursor forward unless
/// it produced the end-of-input token.
pub proof fn lemma_spec_next_bounds(s: Seq<char>, i: int)
    requires
        0 <= i <= s.len(),
    ensures
        i <= spec_next(s, i).end <= s.len(),
        spec_next(s, i).result != Ok::<TokenModel, LexErrorModel>(TokenModel::EndOfFile)
            ==> spec_next(s, i).end > i,
{
    let p = ws_end(s, i);
    lemma_ws_end_props(s, i);
    if p < s.len() {
        let c = s[p];
        if spec_punct(c) is None {
            if is_digit_char(c) {
                lemma_digits_end_props(s, p);
            } else if is_letter_char(c) {
                lemma_word_end_props(s, p);
            } else if c == '"' {
                lemma_str_end_props(s, p + 1);
            }
        }
    }
}

// ---------------------------------------------------------------------------
// Laws of the scan
// ---------------------------------------------------------------------------
/// Law: the terminal state is idempotent. A step that produced the
/// end-of-input token leaves the cursor at the end of the text, where every
/// later step produces end-of-input again without moving.
pub proof fn lemma_end_of_input_idempotent(s: Seq<char>, i: int)
    requires
        0 <= i <= s.len(),
        spec_next(s, i).result == Ok::<TokenModel, LexErrorModel>(TokenModel::EndOfFile),
    ensures
        spec_next(s, i).end == s.len(),
        spec_next(s, spec_next(s, i).end).result == Ok::<TokenModel, LexErrorModel>(
            TokenModel::EndOfFile,
        ),
        spec_next(s, spec_next(s, i).end).end == spec_next(s, i).end,
{
    lemma_ws_end_props(s, i);
}

/// The suffix of `s` from position `i` on: all a scan from `i` can still see.
pub open spec fn suffix_of(s: Seq<char>, i: int) -> Seq<char> {
    s.subrange(i, s.len() as int)
}

/// Equal suffixes see equally much text.
proof fn lemma_suffix_len(s1: Seq<char>, i1: int, s2: Seq<char>, i2: int)
    requires
        0 <= i1 <= s1.len(),
        0 <= i2 <= s2.len(),
        suffix_of(s1, i1) == suffix_of(s2, i2),
    ensures
        s1.len() - i1 == s2.len() - i2,
{
    assert(suffix_of(s1, i1).len() == s1.len() - i1);
    assert(suffix_of(s2, i2).len() == s2.len() - i2);
}

/// Equal suffixes stay equal when both are advanced by the same amount.
proof fn lemma_suffix_shift(s1: Seq<char>, i1: int, s2: Seq<char>, i2: int, d: int)
    requires
        0 <= i1 <= s1.len(),
        0 <= i2 <= s2.len(),
        suffix_of(s1, i1) == suffix_of(s2, i2),
        0 <= d <= s1.len() - i1,
    ensures
        suffix_of(s1, i1 + d) == suffix_of(s2, i2 + d),
{
    lemma_suffix_len(s1, i1, s2, i2);
    let t1 = suffix_of(s1, i1 + d);
    let t2 = suffix_of(s2, i2 + d);
    assert forall|k: int| 0 <= k < t1.len() implies t1[k] == t2[k] by {
        assert(t1[k] == suffix_of(s1, i1)[d + k]);
        assert(t2[k] == suffix_of(s2, i2)[d + k]);
    }
    assert(t1 =~= t2);
}

/// Corresponding characters of equal suffixes are equal.
proof fn lemma_suffix_index(s1: Seq<char>, i1: int, s2: Seq<char>, i2: int, d: int)
    requires
        0 <= i1 <= s1.len(),
        0 <= i2 <= s2.len(),
        suffix_of(s1, i1) == suffix_of(s2, i2),
        0 <= d < s1.len() - i1,
    ensures
        s1[i1 + d] == s2[i2 + d],
{
    lemma_suffix_len(s1, i1, s2, i2);
    assert(s1[i1 + d] == suffix_of(s1, i1)[d]);
    assert(s2[i2 + d] == suffix_of(s2, i2)[d]);
}

/// Corresponding segments of equal suffixes are equal.
proof fn lemma_suffix_segment(s1: Seq<char>, i1: int, s2: Seq<char>, i2: int, a: int, b: int)
    requires
        0 <= i1 <= s1.len(),
        0 <= i2 <= s2.len(),
        suffix_of(s1, i1) == suffix_of(s2, i2),
        0 <= a <= b <= s1.len() - i1,
    ensures
        s1.subrange(i1 + a, i1 + b) == s2.subrange(i2 + a, i2 + b),
{
    lemma_suffix_len(s1, i1, s2, i2);
    let t1 = s1.subrange(i1 + a, i1 + b);
    let t2 = s2.subrange(i2 + a, i2 + b);
    assert forall|k: int| 0 <= k < t1.len() implies t1[k] == t2[k] by {
        assert(t1[k] == suffix_of(s1, i1)[a + k]);
        assert(t2[k] == suffix_of(s2, i2)[a + k]);
    }
    assert(t1 =~= t2);
}

/// Where a scan's remaining input is the same, the maximal whitespace run is
/// the same length.
proof fn lemma_ws_end_local(s1: Seq<char>, i1: int, s2: Seq<char>, i2: int)
    requires
        0 <= i1 <= s1.len(),
        0 <= i2 <= s2.len(),
        suffix_of(s1, i1) == suffix_of(s2, i2),
    ensures
        ws_end(s1, i1) - i1 == ws_end(s2, i2) - i2,
    decreases s1.len() - i1,
{
    lemma_suffix_len(s1, i1, s2, i2);
    if i1 < s1.len() {
        lemma_suffix_index(s1, i1, s2, i2, 0);
        if is_space_char(s1[i1]) {
            lemma_suffix_shift(s1, i1, s2, i2, 1);
            lemma_ws_end_local(s1, i1 + 1, s2, i2 + 1);
        }
    }
}

/// Where a scan's remaining input is the same, the maximal digit run is the
/// same length.
proof fn lemma_digits_end_local(s1: Seq<char>, i1: int, s2: Seq<char>, i2: int)
    requires
        0 <= i1 <= s1.len(),
        0 <= i2 <= s2.len(),
        suffix_of(s1, i1) == suffix_of(s2, i2),
    ensures
        digits_end(s1, i1) - i1 == digits_end(s2, i2) - i2,
    decreases s1.len() - i1,
{
    lemma_suffix_len(s1, i1, s2, i2);
    if i1 < s1.len() {
        lemma_suffix_index(s1, i1, s2, i2, 0);
        if is_digit_char(s1[i1]) {
            lemma_suffix_shift(s1, i1, s2, i2, 1);
            lemma_digits_end_local(s1, i1 + 1, s2, i2 + 1);
        }
    }
}

/// Where a scan's remaining input is the same, the maximal word run is the
/// same length.
proof fn lemma_word_end_local(s1: Seq<char>, i1: int, s2: Seq<char>, i2: int)
    requires
        0 <= i1 <= s1.len(),
        0 <= i2 <= s2.len(),
        suffix_of(s1, i1) == suffix_of(s2, i2),
    ensures
        word_end(s1, i1) - i1 == word_end(s2, i2) - i2,
    decreases s1.len() - i1,
{
    lemma_suffix_len(s1, i1, s2, i2);
    if i1 < s1.len() {
        lemma_suffix_index(s1, i1, s2, i2, 0);
        if is_word_char(s1[i1]) {
            lemma_suffix_shift(s1, i1, s2, i2, 1);
            lemma_word_end_local(s1, i1 + 1, s2, i2 + 1);
        }
    }
}

/// Where a scan's remaining input is the same, the closing quote is equally
/// far away.
proof fn lemma_str_end_local(s1: Seq<char>, i1: int, s2: Seq<char>, i2: int)
    requires
        0 <= i1 <= s1.len(),
        0 <= i2 <= s2.len(),
        suffix_of(s1, i1) == suffix_of(s2, i2),
    ensures
        str_end(s1, i1) - i1 == str_end(s2, i2) - i2,
    decreases s1.len() - i1,
{
    lemma_suffix_len(s1, i1, s2, i2);
    if i1 < s1.len() {
        lemma_suffix_index(s1, i1, s2, i2, 0);
        if s1[i1] != '"' {
            lemma_suffix_shift(s1, i1, s2, i2, 1);
            lemma_str_end_local(s1, i1 + 1, s2, i2 + 1);
        }
    }
}

/// Whether two fatal errors are the same finding at possibly different
/// positions: same kind, same offending character.
pub open spec fn same_error_kind(e1: LexErrorModel, e2: LexErrorModel) -> bool {
    match (e1, e2) {
        (
            LexErrorModel::MalformedNumber { row: _, col: _ },
            LexErrorModel::MalformedNumber { row: _, col: _ },
        ) => true,
        (
            LexErrorModel::UnexpectedCharacter { ch: c1, row: _, col: _ },
            LexErrorModel::UnexpectedCharacter { ch: c2, row: _, col: _ },
        ) => c1 == c2,
        _ => false,
    }
}

/// The scan is local: one step depends only on the remaining input. Two
/// scans whose remaining inputs are equal consume equally much, produce the
/// same token, and fail the same way (the positions an error carries aside).
pub proof fn lemma_spec_next_local(s1: Seq<char>, i1: int, s2: Seq<char>, i2: int)
    requires
        0 <= i1 <= s1.len(),
        0 <= i2 <= s2.len(),
        suffix_of(s1, i1) == suffix_of(s2, i2),
    ensures
        spec_next(s1, i1).end - i1 == spec_next(s2, i2).end - i2,
        spec_next(s1, i1).result is Ok <==> spec_next(s2, i2).result is Ok,
        spec_next(s1, i1).result is Ok ==> spec_next(s1, i1).result == spec_next(s2, i2).result,
        spec_next(s1, i1).result is Err ==> same_error_kind(
            spec_next(s1, i1).result->Err_0,
            spec_next(s2, i2).result->Err_0,
        ),
{
    lemma_suffix_len(s1, i1, s2, i2);
    lemma_ws_end_local(s1, i1, s2, i2);
    lemma_ws_end_props(s1, i1);
    lemma_ws_end_props(s2, i2);
    let p1 = ws_end(s1, i1);
    let p2 = ws_end(s2, i2);
    lemma_suffix_shift(s1, i1, s2, i2, p1 - i1);
    if p1 < s1.len() {
        lemma_suffix_index(s1, p1, s2, p2, 0);
        let c = s1[p1];
        if spec_punct(c) is None {
            if is_digit_char(c) {
                lemma_digits_end_local(s1, p1, s2, p2);
                let j1 = digits_end(s1, p1);
                let j2 = digits_end(s2, p2);
                lemma_digits_end_props(s1, p1);
                lemma_suffix_segment(s1, p1, s2, p2, 0, j1 - p1);
                assert(s1.subrange(p1, j1) == s2.subrange(p2, j2));
            } else if is_letter_char(c) {
                lemma_word_end_local(s1, p1, s2, p2);
                let j1 = word_end(s1, p1);
                let j2 = word_end(s2, p2);
                lemma_word_end_props(s1, p1);
                lemma_suffix_segment(s1, p1, s2, p2, 0, j1 - p1);
                assert(s1.subrange(p1, j1) == s2.subrange(p2, j2));
            } else if c == '"' {
                lemma_suffix_shift(s1, p1, s2, p2, 1);
                lemma_str_end_local(s1, p1 + 1, s2, p2 + 1);
                let j1 = str_end(s1, p1 + 1);
                let j2 = str_end(s2, p2 + 1);
                lemma_str_end_props(s1, p1 + 1);
                lemma_suffix_segment(s1, p1 + 1, s2, p2 + 1, 0, j1 - p1 - 1);
                assert(s1.subrange(p1 + 1, j1) == s2.subrange(p2 + 1, j2));
            }
        }
    }
}

/// The token sequence is local: it depends only on the remaining input.
pub proof fn lemma_token_stream_local(s1: Seq<char>, i1: int, s2: Seq<char>, i2: int)
    requires
        0 <= i1 <= s1.len(),
        0 <= i2 <= s2.len(),
        suffix_of(s1, i1) == suffix_of(s2, i2),
    ensures
        token_stream(s1, i1) == token_stream(s2, i2),
    decreases s1.len() - i1,
{
    lemma_spec_next_local(s1, i1, s2, i2);
    lemma_spec_next_bounds(s1, i1);
    lemma_spec_next_bounds(s2, i2);
    let step1 = spec_next(s1, i1);
    let step2 = spec_next(s2, i2);
    match step1.result {
        Ok(t) => {
            if t != TokenModel::EndOfFile {
                lemma_suffix_shift(s1, i1, s2, i2, step1.end - i1);
                lemma_token_stream_local(s1, step1.end, s2, step2.end);
            }
        },
        Err(_) => {},
    }
}

/// Consuming leading whitespace does not change the token sequence.
pub proof fn lemma_ws_skip_stream(s: Seq<char>, i: int)
    requires
        0 <= i <= s.len(),
    ensures
        token_stream(s, i) == token_stream(s, ws_end(s, i)),
{
    lemma_ws_end_props(s, i);
    assert(ws_end(s, ws_end(s, i)) == ws_end(s, i));
    assert(spec_next(s, i) == spec_next(s, ws_end(s, i)));
}

/// Law: whitespace is invisible. Two sources whose texts agree once the
/// whitespace under the cursor is discarded — in particular, a source with
/// whitespace runs between its tokens inserted, removed or reshaped — yield
/// the same token sequence; only the row/column bookkeeping changes.
pub proof fn lemma_whitespace_invisible(s1: Seq<char>, i1: int, s2: Seq<char>, i2: int)
    requires
        0 <= i1 <= s1.len(),
        0 <= i2 <= s2.len(),
        suffix_of(s1, ws_end(s1, i1)) == suffix_of(s2, ws_end(s2, i2)),
    ensures
        token_stream(s1, i1) == token_stream(s2, i2),
{
    lemma_ws_end_props(s1, i1);
    lemma_ws_end_props(s2, i2);
    lemma_ws_skip_stream(s1, i1);
    lemma_ws_skip_stream(s2, i2);
    lemma_token_stream_local(s1, ws_end(s1, i1), s2, ws_end(s2, i2));
}

/// Law: maximal munch. A token that begins with a digit covers the whole
/// maximal digit run, and one that begins with a letter covers the whole
/// maximal word run: the character just past the consumed token could never
/// have extended it.
pub proof fn lemma_maximal_munch(s: Seq<char>, i: int)
    requires
        0 <= i <= s.len(),
    ensures
        ({
            let p = ws_end(s, i);
            let step = spec_next(s, i);
            &&& (p < s.len() && is_digit_char(s[p]) ==> step.end == digits_end(s, p) && (step.end
                == s.len() || !is_digit_char(s[step.end])))
            &&& (p < s.len() && is_letter_char(s[p]) ==> step.end == word_end(s, p) && (step.end
                == s.len() || !is_word_char(s[step.end])))
        }),
{
    lemma_ws_end_props(s, i);
    let p = ws_end(s, i);
    if p < s.len() {
        if is_digit_char(s[p]) {
            lemma_digits_end_props(s, p);
        } else if is_letter_char(s[p]) {
            lemma_word_end_props(s, p);
        }
    }
}

/// The two-word keyword spelling `"else if"` in the table is dead: no scan
/// step ever produces its keyword, since a scanned word never contains a
/// space.
pub proof fn lemma_else_if_unreachable(s: Seq<char>, i: int)
    requires
        0 <= i <= s.len(),
    ensures
        spec_next(s, i).result != Ok::<TokenModel, LexErrorModel>(
            TokenModel::Keyword(KeywordType::ElseIf),
        ),
{
    lemma_ws_end_props(s, i);
    let p = ws_end(s, i);
    if p < s.len() {
        let c = s[p];
        if spec_punct(c) is None && !is_digit_char(c) && is_letter_char(c) {
            let j = word_end(s, p);
            lemma_word_end_props(s, p);
            let w = s.subrange(p, j);
            if spec_keyword(w) == Some(KeywordType::ElseIf) {
                assert(w == seq!['e', 'l', 's', 'e', ' ', 'i', 'f']);
                assert(w[4] == ' ');
                assert(is_word_char(s[p + 4]));
            }
        }
    }
}

} // verus!
