//! The tokenizer: classifies raw source characters into a sequence of tokens.
//!
//! `spec_next_token` is the mathematical model of one tokenizer step: from an
//! input character sequence and a cursor state it yields the next token (or a
//! lexical error) together with the state left behind.  The executable
//! [`Lexer::next_token`] is proved to follow that model exactly.

use vstd::prelude::*;

verus! {

// ---------------------------------------------------------------------------
// Character classes
// ---------------------------------------------------------------------------

/// Whitespace: space, tab, carriage return or newline.
pub open spec fn is_space_char(c: char) -> bool {
    c == ' ' || c == '\t' || c == '\r' || c == '\n'
}

/// An identifier may start with an ASCII letter or an underscore.
pub open spec fn is_ident_start_char(c: char) -> bool {
    (65 <= c as u32 && c as u32 <= 90)  // 'A'..='Z'
    || (97 <= c as u32 && c as u32 <= 122)  // 'a'..='z'
    || c == '_'
}

/// An ASCII decimal digit.
pub open spec fn is_digit_char(c: char) -> bool {
    48 <= c as u32 && c as u32 <= 57
}

/// After its first character an identifier may continue with digits as well.
pub open spec fn is_ident_cont_char(c: char) -> bool {
    is_ident_start_char(c) || is_digit_char(c)
}

/// A separator: `,` or `;`.
pub open spec fn is_separator_char(c: char) -> bool {
    c == ',' || c == ';'
}

/// An opening bracket: `(` or `{`.
pub open spec fn is_open_char(c: char) -> bool {
    c == '(' || c == '{'
}

/// A closing bracket: `)` or `}`.
pub open spec fn is_close_char(c: char) -> bool {
    c == ')' || c == '}'
}

/// Structural punctuation: brackets and separators.
pub open spec fn is_punctuation_char(c: char) -> bool {
    is_open_char(c) || is_close_char(c) || is_separator_char(c)
}

/// An operator character; one or two of these in a row form an operator token.
pub open spec fn is_operator_char(c: char) -> bool {
    c == '+' || c == '=' || c == '-' || c == '*' || c == '/'
    || c == '>' || c == '<' || c == '!' || c == '&' || c == '|'
}

/// A character the tokenizer gives a meaning to; anything else ends the input.
pub open spec fn is_recognized_char(c: char) -> bool {
    is_space_char(c) || is_ident_start_char(c) || is_digit_char(c)
    || is_punctuation_char(c) || is_operator_char(c)
}

// ---------------------------------------------------------------------------
// Tokens and errors
// ---------------------------------------------------------------------------

#[derive(PartialEq, Eq, Debug, Clone, Copy, Structural)]
pub enum PunctutationKind {
    /// An opening bracket, carrying the nesting depth it opens.
    Open(usize),
    /// A closing bracket, carrying the nesting depth it closes.
    Close(usize),
    /// `,` or `;`.
    Seperator,
}

/// A punctuation character together with its classification.
#[derive(PartialEq, Eq, Debug, Clone)]
pub struct Punctuation {
    pub raw: String,
    pub kind: PunctutationKind,
}

#[derive(PartialEq, Eq, Debug, Clone, Copy, Structural)]
pub enum TokenType {
    Punctuation(PunctutationKind),
    Operator,
    Identifier,
    Number,
    EOF,
}

/// A classified lexical unit with its raw text and source position.
#[derive(PartialEq, Eq, Debug, Clone)]
pub struct Token {
    pub ty: TokenType,
    pub raw: String,
    pub collumn: usize,
    pub line: usize,
}

/// The mathematical image of a [`Token`]: the raw text as a character
/// sequence, the position as unbounded integers.
pub ghost struct TokenV {
    pub ty: TokenType,
    pub raw: Seq<char>,
    pub collumn: int,
    pub line: int,
}

impl View for Token {
    type V = TokenV;

    open spec fn view(&self) -> TokenV {
        TokenV {
            ty: self.ty,
            raw: self.raw@,
            collumn: self.collumn as int,
            line: self.line as int,
        }
    }
}

#[derive(PartialEq, Eq, Debug, Clone, Copy, Structural)]
pub enum LexerErrKind {
    /// A closing bracket with nothing open, or an unclosed bracket at the end.
    UnevenParentheses,
    /// A digit run immediately followed by an identifier character.
    IncorrectNumber,
    /// Kept for completeness; the tokenizer never produces it.
    IncorrectIdentifier,
}

#[derive(PartialEq, Eq, Debug, Clone, Copy, Structural)]
pub struct LexerErr {
    pub kind: LexerErrKind,
    pub collumn: usize,
    pub line: usize,
}

// ---------------------------------------------------------------------------
// The tokenizer state and its model
// ---------------------------------------------------------------------------

/// The tokenizer: a forward-only cursor over the input characters, plus the
/// running line, column and bracket-depth counters.
pub struct Lexer<'a> {
    pub src: &'a str,
    pub pos: usize,
    pub cur_line: usize,
    pub cur_collumn: usize,
    pub cur_curly: usize,
    pub cur_paren: usize,
}

/// The cursor state of the tokenizer, as unbounded integers.
pub ghost struct LexSt {
    pub pos: int,
    pub line: int,
    pub col: int,
    pub paren: int,
    pub curly: int,
}

/// One step of the tokenizer model: the state left behind and the token or
/// error produced.
pub ghost struct LexStep {
    pub st: LexSt,
    pub res: Result<TokenV, LexerErr>,
}

/// Whitespace skipping: advances the cursor past whitespace, counting lines
/// and columns (a newline resets the column to 0 and advances the line).
/// Returns the updated `(pos, line, col)`.
pub open spec fn skip_ws(s: Seq<char>, pos: int, line: int, col: int) -> (int, int, int)
    decreases s.len() - pos,
{
    if 0 <= pos < s.len() && is_space_char(s[pos]) {
        if s[pos] == '\n' {
            skip_ws(s, pos + 1, line + 1, 0)
        } else {
            skip_ws(s, pos + 1, line, col + 1)
        }
    } else {
        (pos, line, col)
    }
}

/// The end of the identifier-continuation run that starts at `i`.
pub open spec fn ident_end(s: Seq<char>, i: int) -> int
    decreases s.len() - i,
{
    if 0 <= i < s.len() && is_ident_cont_char(s[i]) {
        ident_end(s, i + 1)
    } else {
        i
    }
}

/// The end of the digit run that starts at `i`.
pub open spec fn digits_end(s: Seq<char>, i: int) -> int
    decreases s.len() - i,
{
    if 0 <= i < s.len() && is_digit_char(s[i]) {
        digits_end(s, i + 1)
    } else {
        i
    }
}

/// One step of the tokenizer, in priority order over the character after the
/// skipped whitespace: identifier, number, punctuation, operator; anything
/// else — or the end of the characters — yields the terminal token, or
/// `UnevenParentheses` if a bracket is still open.  The column counter gains
/// one for the lookahead of a token's first character and one more per
/// consumed character, as the positions attached to tokens record.
pub open spec fn spec_next_token(s: Seq<char>, st0: LexSt) -> LexStep {
    let (p, l, c) = skip_ws(s, st0.pos, st0.line, st0.col);
    if 0 <= p < s.len() && is_ident_start_char(s[p]) {
        let e = ident_end(s, p + 1);
        let col = c + 1 + (e - p);
        LexStep {
            st: LexSt { pos: e, line: l, col: col, paren: st0.paren, curly: st0.curly },
            res: Ok(TokenV {
                ty: TokenType::Identifier,
                raw: s.subrange(p, e),
                collumn: col,
                line: l,
            }),
        }
    } else if 0 <= p < s.len() && is_digit_char(s[p]) {
        let e = digits_end(s, p);
        let col = c + 1 + (e - p);
        if e < s.len() && is_ident_start_char(s[e]) {
            LexStep {
                st: LexSt { pos: e, line: l, col: col, paren: st0.paren, curly: st0.curly },
                res: Err(LexerErr {
                    kind: LexerErrKind::IncorrectNumber,
                    collumn: col as usize,
                    line: l as usize,
                }),
            }
        } else {
            LexStep {
                st: LexSt { pos: e, line: l, col: col, paren: st0.paren, curly: st0.curly },
                res: Ok(TokenV {
                    ty: TokenType::Number,
                    raw: s.subrange(p, e),
                    collumn: col,
                    line: l,
                }),
            }
        }
    } else if 0 <= p < s.len() && is_separator_char(s[p]) {
        LexStep {
            st: LexSt { pos: p + 1, line: l, col: c + 1, paren: st0.paren, curly: st0.curly },
            res: Ok(TokenV {
                ty: TokenType::Punctuation(PunctutationKind::Seperator),
                raw: s.subrange(p, p + 1),
                collumn: c + 1,
                line: l,
            }),
        }
    } else if 0 <= p < s.len() && is_open_char(s[p]) {
        let depth = if s[p] == '(' { st0.paren } else { st0.curly };
        LexStep {
            st: LexSt {
                pos: p + 1,
                line: l,
                col: c + 1,
                paren: if s[p] == '(' { st0.paren + 1 } else { st0.paren },
                curly: if s[p] == '{' { st0.curly + 1 } else { st0.curly },
            },
            res: Ok(TokenV {
                ty: TokenType::Punctuation(PunctutationKind::Open(depth as usize)),
                raw: s.subrange(p, p + 1),
                collumn: c + 1,
                line: l,
            }),
        }
    } else if 0 <= p < s.len() && is_close_char(s[p]) {
        let depth = if s[p] == ')' { st0.paren } else { st0.curly };
        if depth == 0 {
            LexStep {
                st: LexSt { pos: p + 1, line: l, col: c + 1, paren: st0.paren, curly: st0.curly },
                res: Err(LexerErr {
                    kind: LexerErrKind::UnevenParentheses,
                    collumn: (c + 1) as usize,
                    line: l as usize,
                }),
            }
        } else {
            LexStep {
                st: LexSt {
                    pos: p + 1,
                    line: l,
                    col: c + 1,
                    paren: if s[p] == ')' { st0.paren - 1 } else { st0.paren },
                    curly: if s[p] == '}' { st0.curly - 1 } else { st0.curly },
                },
                res: Ok(TokenV {
                    ty: TokenType::Punctuation(PunctutationKind::Close((depth - 1) as usize)),
                    raw: s.subrange(p, p + 1),
                    collumn: c + 1,
                    line: l,
                }),
            }
        }
    } else if 0 <= p < s.len() && is_operator_char(s[p]) {
        let two = p + 1 < s.len() && is_operator_char(s[p + 1]);
        let e = if two { p + 2 } else { p + 1 };
        let col = if two { c + 2 } else { c + 1 };
        LexStep {
            st: LexSt { pos: e, line: l, col: col, paren: st0.paren, curly: st0.curly },
            res: Ok(TokenV {
                ty: TokenType::Operator,
                raw: s.subrange(p, e),
                collumn: col,
                line: l,
            }),
        }
    } else {
        // End of the input, or a character outside every class: the terminal
        // step.  An open bracket left over is an error, and both depth
        // counters reset, so that a further call yields the terminal token.
        if st0.curly > 0 || st0.paren > 0 {
            LexStep {
                st: LexSt { pos: p, line: l, col: c, paren: 0, curly: 0 },
                res: Err(LexerErr {
                    kind: LexerErrKind::UnevenParentheses,
                    collumn: c as usize,
                    line: l as usize,
                }),
            }
        } else {
            LexStep {
                st: LexSt { pos: p, line: l, col: c, paren: st0.paren, curly: st0.curly },
                res: Ok(TokenV {
                    ty: TokenType::EOF,
                    raw: Seq::empty(),
                    collumn: c,
                    line: l,
                }),
            }
        }
    }
}

/// The scan that ends an identifier stays inside the input and never moves
/// backwards.
pub proof fn lemma_ident_end_bounds(s: Seq<char>, i: int)
    requires
        0 <= i <= s.len(),
    ensures
        i <= ident_end(s, i) <= s.len(),
    decreases s.len() - i,
{
    if i < s.len() && is_ident_cont_char(s[i]) {
        lemma_ident_end_bounds(s, i + 1);
    }
}

/// The scan that ends a digit run stays inside the input and never moves
/// backwards.
pub proof fn lemma_digits_end_bounds(s: Seq<char>, i: int)
    requires
        0 <= i <= s.len(),
    ensures
        i <= digits_end(s, i) <= s.len(),
    decreases s.len() - i,
{
    if i < s.len() && is_digit_char(s[i]) {
        lemma_digits_end_bounds(s, i + 1);
    }
}

/// The image of an executable tokenizer result in the model.
pub open spec fn res_view(r: Result<Token, LexerErr>) -> Result<TokenV, LexerErr> {
    match r {
        Ok(t) => Ok(t@),
        Err(e) => Err(e),
    }
}

impl<'a> Lexer<'a> {
    /// The cursor state of this tokenizer.
    pub open spec fn st(&self) -> LexSt {
        LexSt {
            pos: self.pos as int,
            line: self.cur_line as int,
            col: self.cur_collumn as int,
            paren: self.cur_paren as int,
            curly: self.cur_curly as int,
        }
    }

    /// Well-formedness: the cursor is inside the input, and the counters are
    /// bounded by the distance travelled, which keeps every counter update
    /// below `usize::MAX`.  The length bound is the one machine limit asked
    /// of callers.
    pub open spec fn wf(&self) -> bool {
        &&& self.pos <= self.src@.len()
        &&& self.src@.len() <= usize::MAX as int / 4
        &&& self.cur_collumn <= 2 * self.pos + 1
        &&& self.cur_line <= self.pos + 1
        &&& self.cur_paren <= self.pos
        &&& self.cur_curly <= self.pos
    }

    /// A fresh tokenizer at the start of `chars`: line 1, column 0, no open
    /// brackets.
    pub fn new(chars: &'a str) -> (l: Lexer<'a>)
        requires
            chars@.len() <= usize::MAX as int / 4,
        ensures
            l.wf(),
            l.src@ == chars@,
            l.st() == (LexSt { pos: 0, line: 1, col: 0, paren: 0, curly: 0 }),
    {
        Lexer { src: chars, pos: 0, cur_line: 1, cur_collumn: 0, cur_curly: 0, cur_paren: 0 }
    }

    /// Whether `c` may start (or continue) an identifier.
    fn is_identifier(c: char) -> (r: bool)
        ensures
            r == is_ident_start_char(c),
    {
        let u = c as u32;
        (65 <= u && u <= 90) || (97 <= u && u <= 122) || c == '_'
    }

    /// Whether `c` is an ASCII decimal digit.
    fn is_digit(c: char) -> (r: bool)
        ensures
            r == is_digit_char(c),
    {
        let u = c as u32;
        48 <= u && u <= 57
    }

    /// Whether `c` is structural punctuation.
    fn is_punctuation(c: char) -> (r: bool)
        ensures
            r == is_punctuation_char(c),
    {
        c == '(' || c == ')' || c == '{' || c == '}' || c == ',' || c == ';'
    }

    /// Whether `c` is a separator.
    fn is_seperator(c: char) -> (r: bool)
        ensures
            r == is_separator_char(c),
    {
        c == ',' || c == ';'
    }

    /// Whether `c` is an operator character.
    fn is_operator(c: char) -> (r: bool)
        ensures
            r == is_operator_char(c),
    {
        c == '+' || c == '=' || c == '-' || c == '*' || c == '/'
        || c == '>' || c == '<' || c == '!' || c == '&' || c == '|'
    }

    /// Whether `c` is whitespace.
    fn is_space(c: char) -> (r: bool)
        ensures
            r == is_space_char(c),
    {
        c == ' ' || c == '\t' || c == '\r' || c == '\n'
    }

    /// Greedily consumes an identifier: its head character, then letters,
    /// underscores and digits.
    fn parse_identifier(&mut self) -> (t: Token)
        requires
            old(self).pos < old(self).src@.len(),
            old(self).src@.len() <= usize::MAX as int / 4,
            old(self).cur_collumn <= 2 * old(self).pos + 2,
            is_ident_start_char(old(self).src@[old(self).pos as int]),
        ensures
            final(self).src == old(self).src,
            final(self).cur_line == old(self).cur_line,
            final(self).cur_paren == old(self).cur_paren,
            final(self).cur_curly == old(self).cur_curly,
            final(self).pos == ident_end(old(self).src@, old(self).pos + 1),
            old(self).pos < final(self).pos <= old(self).src@.len(),
            final(self).cur_collumn == old(self).cur_collumn + (final(self).pos - old(self).pos),
            t@ == (TokenV {
                ty: TokenType::Identifier,
                raw: old(self).src@.subrange(old(self).pos as int, final(self).pos as int),
                collumn: final(self).cur_collumn as int,
                line: final(self).cur_line as int,
            }),
    {
        let ghost s = self.src@;
        let ghost src0 = self.src;
        let ghost col0 = self.cur_collumn as int;
        let ghost line0 = self.cur_line as int;
        let ghost paren0 = self.cur_paren;
        let ghost curly0 = self.cur_curly;
        let start = self.pos;
        let len = self.src.unicode_len();
        self.pos = self.pos + 1;
        self.cur_collumn = self.cur_collumn + 1;
        loop
            invariant
                self.src == src0,
                s == self.src@,
                len == s.len(),
                s.len() <= usize::MAX as int / 4,
                col0 <= 2 * start + 2,
                start < self.pos <= len,
                self.cur_collumn == col0 + (self.pos - start),
                ident_end(s, start + 1) == ident_end(s, self.pos as int),
                self.cur_line as int == line0,
                self.cur_paren == paren0,
                self.cur_curly == curly0,
            ensures
                self.pos as int == ident_end(s, start + 1),
            decreases s.len() - self.pos,
        {
            if self.pos >= len {
                break;
            }
            let c = self.src.get_char(self.pos);
            if Lexer::is_identifier(c) || Lexer::is_digit(c) {
                self.pos = self.pos + 1;
                self.cur_collumn = self.cur_collumn + 1;
            } else {
                break;
            }
        }
        let raw = self.src.substring_char(start, self.pos).to_owned();
        Token { ty: TokenType::Identifier, raw, collumn: self.cur_collumn, line: self.cur_line }
    }

    /// Greedily consumes a digit run; a digit run running into an identifier
    /// character is the malformed-number error.
    fn parse_number(&mut self) -> (r: Result<Token, LexerErr>)
        requires
            old(self).pos < old(self).src@.len(),
            old(self).src@.len() <= usize::MAX as int / 4,
            old(self).cur_collumn <= 2 * old(self).pos + 2,
            is_digit_char(old(self).src@[old(self).pos as int]),
        ensures
            final(self).src == old(self).src,
            final(self).cur_line == old(self).cur_line,
            final(self).cur_paren == old(self).cur_paren,
            final(self).cur_curly == old(self).cur_curly,
            final(self).pos == digits_end(old(self).src@, old(self).pos as int),
            old(self).pos < final(self).pos <= old(self).src@.len(),
            final(self).cur_collumn == old(self).cur_collumn + (final(self).pos - old(self).pos),
            res_view(r) == ({
                let s = old(self).src@;
                let e = digits_end(s, old(self).pos as int);
                let col = old(self).cur_collumn + (e - old(self).pos);
                if e < s.len() && is_ident_start_char(s[e]) {
                    Err::<TokenV, LexerErr>(LexerErr {
                        kind: LexerErrKind::IncorrectNumber,
                        collumn: col as usize,
                        line: old(self).cur_line,
                    })
                } else {
                    Ok::<TokenV, LexerErr>(TokenV {
                        ty: TokenType::Number,
                        raw: s.subrange(old(self).pos as int, e),
                        collumn: col as int,
                        line: old(self).cur_line as int,
                    })
                }
            }),
    {
        let ghost s = self.src@;
        let ghost src0 = self.src;
        let ghost col0 = self.cur_collumn as int;
        let ghost line0 = self.cur_line as int;
        let ghost paren0 = self.cur_paren;
        let ghost curly0 = self.cur_curly;
        let start = self.pos;
        let len = self.src.unicode_len();
        loop
            invariant
                self.src == src0,
                s == self.src@,
                len == s.len(),
                s.len() <= usize::MAX as int / 4,
                col0 <= 2 * start + 2,
                start <= self.pos <= len,
                self.cur_collumn == col0 + (self.pos - start),
                digits_end(s, start as int) == digits_end(s, self.pos as int),
                self.cur_line as int == line0,
                self.cur_paren == paren0,
                self.cur_curly == curly0,
            ensures
                self.pos as int == digits_end(s, start as int),
                self.pos as int == s.len() || !is_digit_char(s[self.pos as int]),
                self.cur_collumn == col0 + (self.pos - start),
                self.src == src0,
                self.cur_line as int == line0,
                self.cur_paren == paren0,
                self.cur_curly == curly0,
            decreases s.len() - self.pos,
        {
            if self.pos >= len {
                break;
            }
            let c = self.src.get_char(self.pos);
            if Lexer::is_digit(c) {
                self.pos = self.pos + 1;
                self.cur_collumn = self.cur_collumn + 1;
            } else {
                break;
            }
        }
        proof {
            // the run starts on a digit, so at least one character went by
            lemma_digits_end_bounds(s, start + 1);
        }
        if self.pos < len {
            let c = self.src.get_char(self.pos);
            if Lexer::is_identifier(c) {
                return Err(LexerErr {
                    kind: LexerErrKind::IncorrectNumber,
                    collumn: self.cur_collumn,
                    line: self.cur_line,
                });
            }
        }
        let raw = self.src.substring_char(start, self.pos).to_owned();
        Ok(Token { ty: TokenType::Number, raw, collumn: self.cur_collumn, line: self.cur_line })
    }

    /// Consumes one bracket.  An opening bracket carries the depth it opens
    /// and raises that kind's counter; a closing bracket with nothing open is
    /// the uneven-parentheses error, otherwise it lowers the counter and
    /// carries the depth it closes.
    fn parse_paren(&mut self) -> (r: Result<Token, LexerErr>)
        requires
            old(self).pos < old(self).src@.len(),
            old(self).src@.len() <= usize::MAX as int / 4,
            is_open_char(old(self).src@[old(self).pos as int])
                || is_close_char(old(self).src@[old(self).pos as int]),
            old(self).cur_paren <= old(self).pos,
            old(self).cur_curly <= old(self).pos,
        ensures
            final(self).src == old(self).src,
            final(self).pos == old(self).pos + 1,
            final(self).cur_line == old(self).cur_line,
            final(self).cur_collumn == old(self).cur_collumn,
            ({
                let s = old(self).src@;
                let c = s[old(self).pos as int];
                let raw = s.subrange(old(self).pos as int, old(self).pos + 1);
                let col = old(self).cur_collumn as int;
                let line = old(self).cur_line as int;
                if is_open_char(c) {
                    &&& final(self).cur_paren == old(self).cur_paren + (if c == '(' { 1int } else { 0int })
                    &&& final(self).cur_curly == old(self).cur_curly + (if c == '{' { 1int } else { 0int })
                    &&& res_view(r) == Ok::<TokenV, LexerErr>(TokenV {
                        ty: TokenType::Punctuation(PunctutationKind::Open(
                            if c == '(' { old(self).cur_paren } else { old(self).cur_curly },
                        )),
                        raw: raw,
                        collumn: col,
                        line: line,
                    })
                } else {
                    let depth = if c == ')' { old(self).cur_paren } else { old(self).cur_curly };
                    if depth == 0 {
                        &&& final(self).cur_paren == old(self).cur_paren
                        &&& final(self).cur_curly == old(self).cur_curly
                        &&& res_view(r) == Err::<TokenV, LexerErr>(LexerErr {
                            kind: LexerErrKind::UnevenParentheses,
                            collumn: old(self).cur_collumn,
                            line: old(self).cur_line,
                        })
                    } else {
                        &&& final(self).cur_paren == old(self).cur_paren - (if c == ')' { 1int } else { 0int })
                        &&& final(self).cur_curly == old(self).cur_curly - (if c == '}' { 1int } else { 0int })
                        &&& res_view(r) == Ok::<TokenV, LexerErr>(TokenV {
                            ty: TokenType::Punctuation(PunctutationKind::Close((depth - 1) as usize)),
                            raw: raw,
                            collumn: col,
                            line: line,
                        })
                    }
                }
            }),
    {
        let c = self.src.get_char(self.pos);
        let raw = self.src.substring_char(self.pos, self.pos + 1).to_owned();
        self.pos = self.pos + 1;
        if c == '(' || c == '{' {
            let token = Token {
                ty: TokenType::Punctuation(PunctutationKind::Open(
                    if c == '(' { self.cur_paren } else { self.cur_curly },
                )),
                raw,
                collumn: self.cur_collumn,
                line: self.cur_line,
            };
            if c == '(' {
                self.cur_paren = self.cur_paren + 1;
            } else {
                self.cur_curly = self.cur_curly + 1;
            }
            Ok(token)
        } else {
            let current = if c == ')' { self.cur_paren } else { self.cur_curly };
            if current == 0 {
                Err(LexerErr {
                    kind: LexerErrKind::UnevenParentheses,
                    collumn: self.cur_collumn,
                    line: self.cur_line,
                })
            } else {
                if c == ')' {
                    self.cur_paren = self.cur_paren - 1;
                } else {
                    self.cur_curly = self.cur_curly - 1;
                }
                Ok(Token {
                    ty: TokenType::Punctuation(PunctutationKind::Close(current - 1)),
                    raw,
                    collumn: self.cur_collumn,
                    line: self.cur_line,
                })
            }
        }
    }

    /// Produces the next token, exactly as the model `spec_next_token` says:
    /// whitespace is skipped, then the lookahead character picks the token
    /// class.  Called repeatedly until the terminal token appears; calling
    /// again after that safely yields the terminal token once more.
    pub fn next_token(&mut self) -> (r: Result<Token, LexerErr>)
        requires
            old(self).wf(),
        ensures
            final(self).wf(),
            final(self).src == old(self).src,
            final(self).st() == spec_next_token(old(self).src@, old(self).st()).st,
            res_view(r) == spec_next_token(old(self).src@, old(self).st()).res,
    {
        let ghost s = self.src@;
        let ghost st0 = self.st();
        let ghost src0 = self.src;
        let len = self.src.unicode_len();
        loop
            invariant
                self.src == src0,
                s == self.src@,
                len == s.len(),
                self.wf(),
                self.cur_paren as int == st0.paren,
                self.cur_curly as int == st0.curly,
                skip_ws(s, st0.pos, st0.line, st0.col)
                    == skip_ws(s, self.pos as int, self.cur_line as int, self.cur_collumn as int),
            ensures
                self.src == src0,
                self.wf(),
                self.cur_paren as int == st0.paren,
                self.cur_curly as int == st0.curly,
                skip_ws(s, st0.pos, st0.line, st0.col)
                    == (self.pos as int, self.cur_line as int, self.cur_collumn as int),
            decreases s.len() - self.pos,
        {
            if self.pos >= len {
                break;
            }
            let c = self.src.get_char(self.pos);
            if !Lexer::is_space(c) {
                break;
            }
            if c == '\n' {
                self.cur_line = self.cur_line + 1;
                self.cur_collumn = 0;
            } else {
                self.cur_collumn = self.cur_collumn + 1;
            }
            self.pos = self.pos + 1;
        }
        if self.pos < len {
            let c = self.src.get_char(self.pos);
            if Lexer::is_identifier(c) {
                self.cur_collumn = self.cur_collumn + 1;
                let t = self.parse_identifier();
                return Ok(t);
            } else if Lexer::is_digit(c) {
                self.cur_collumn = self.cur_collumn + 1;
                return self.parse_number();
            } else if Lexer::is_punctuation(c) {
                self.cur_collumn = self.cur_collumn + 1;
                if Lexer::is_seperator(c) {
                    let raw = self.src.substring_char(self.pos, self.pos + 1).to_owned();
                    let t = Token {
                        ty: TokenType::Punctuation(PunctutationKind::Seperator),
                        raw,
                        collumn: self.cur_collumn,
                        line: self.cur_line,
                    };
                    self.pos = self.pos + 1;
                    return Ok(t);
                }
                return self.parse_paren();
            } else if Lexer::is_operator(c) {
                self.cur_collumn = self.cur_collumn + 1;
                let mut end = self.pos + 1;
                if end < len {
                    let c2 = self.src.get_char(end);
                    if Lexer::is_operator(c2) {
                        end = end + 1;
                        self.cur_collumn = self.cur_collumn + 1;
                    }
                }
                let raw = self.src.substring_char(self.pos, end).to_owned();
                self.pos = end;
                return Ok(Token {
                    ty: TokenType::Operator,
                    raw,
                    collumn: self.cur_collumn,
                    line: self.cur_line,
                });
            }
        }
        // End of the input, or a character outside every class.
        if self.cur_curly > 0 || self.cur_paren > 0 {
            self.cur_curly = 0;
            self.cur_paren = 0;
            return Err(LexerErr {
                kind: LexerErrKind::UnevenParentheses,
                collumn: self.cur_collumn,
                line: self.cur_line,
            });
        }
        Ok(Token {
            ty: TokenType::EOF,
            raw: String::new(),
            collumn: self.cur_collumn,
            line: self.cur_line,
        })
    }
}

// ---------------------------------------------------------------------------
// Whole-input tokenization and its laws
// ---------------------------------------------------------------------------

/// The state a fresh tokenizer starts in: line 1, column 0, nothing open.
pub open spec fn initial_st() -> LexSt {
    LexSt { pos: 0, line: 1, col: 0, paren: 0, curly: 0 }
}

/// Tokenizing a whole input: steps of `spec_next_token` up to and including
/// the terminal token, or the first error.  Returns the token sequence and
/// the state left behind.
pub open spec fn spec_tokenize(s: Seq<char>, st: LexSt) -> Result<(Seq<TokenV>, LexSt), LexerErr>
    decreases s.len() - st.pos,
{
    let step = spec_next_token(s, st);
    match step.res {
        Err(e) => Err(e),
        Ok(t) => {
            if t.ty == TokenType::EOF {
                Ok((seq![t], step.st))
            } else if st.pos < step.st.pos <= s.len() {
                match spec_tokenize(s, step.st) {
                    Err(e) => Err(e),
                    Ok((rest, stf)) => Ok((seq![t] + rest, stf)),
                }
            } else {
                // a step that produces a token other than the terminal one
                // always consumes at least one character (see
                // `lemma_next_token_advances`), so this arm is never taken
                Err(LexerErr { kind: LexerErrKind::IncorrectIdentifier, collumn: 0, line: 0 })
            }
        },
    }
}

/// The raw texts of a token sequence, concatenated in order.
pub open spec fn concat_raws(ts: Seq<TokenV>) -> Seq<char>
    decreases ts.len(),
{
    if ts.len() == 0 {
        Seq::empty()
    } else {
        ts[0].raw + concat_raws(ts.drop_first())
    }
}

/// The characters of `s` that are not whitespace, in order.
pub open spec fn non_space_chars(s: Seq<char>) -> Seq<char>
    decreases s.len(),
{
    if s.len() == 0 {
        Seq::empty()
    } else if is_space_char(s[0]) {
        non_space_chars(s.drop_first())
    } else {
        seq![s[0]] + non_space_chars(s.drop_first())
    }
}

/// Whitespace skipping stays inside the input, skips only whitespace, and
/// stops at the first character that is none.
pub proof fn lemma_skip_ws_props(s: Seq<char>, pos: int, line: int, col: int)
    requires
        0 <= pos <= s.len(),
    ensures
        pos <= skip_ws(s, pos, line, col).0 <= s.len(),
        forall|j: int|
            pos <= j < skip_ws(s, pos, line, col).0 ==> is_space_char(#[trigger] s[j]),
        skip_ws(s, pos, line, col).0 < s.len()
            ==> !is_space_char(s[skip_ws(s, pos, line, col).0]),
    decreases s.len() - pos,
{
    if pos < s.len() && is_space_char(s[pos]) {
        if s[pos] == '\n' {
            lemma_skip_ws_props(s, pos + 1, line + 1, 0);
        } else {
            lemma_skip_ws_props(s, pos + 1, line, col + 1);
        }
    }
}

/// Every character of an identifier run may continue an identifier.
pub proof fn lemma_ident_end_chars(s: Seq<char>, i: int)
    requires
        0 <= i <= s.len(),
    ensures
        forall|j: int| i <= j < ident_end(s, i) ==> is_ident_cont_char(#[trigger] s[j]),
    decreases s.len() - i,
{
    if i < s.len() && is_ident_cont_char(s[i]) {
        lemma_ident_end_chars(s, i + 1);
        lemma_ident_end_bounds(s, i + 1);
    }
}

/// Every character of a digit run is a digit.
pub proof fn lemma_digits_end_chars(s: Seq<char>, i: int)
    requires
        0 <= i <= s.len(),
    ensures
        forall|j: int| i <= j < digits_end(s, i) ==> is_digit_char(#[trigger] s[j]),
    decreases s.len() - i,
{
    if i < s.len() && is_digit_char(s[i]) {
        lemma_digits_end_chars(s, i + 1);
        lemma_digits_end_bounds(s, i + 1);
    }
}

/// Filtering whitespace out of pure whitespace leaves nothing.
proof fn lemma_all_space_empty(s: Seq<char>)
    requires
        forall|i: int| 0 <= i < s.len() ==> is_space_char(#[trigger] s[i]),
    ensures
        non_space_chars(s) == Seq::<char>::empty(),
    decreases s.len(),
{
    if s.len() > 0 {
        lemma_all_space_empty(s.drop_first());
    }
}

/// Filtering whitespace out of text without any leaves the text unchanged.
proof fn lemma_no_space_id(s: Seq<char>)
    requires
        forall|i: int| 0 <= i < s.len() ==> !is_space_char(#[trigger] s[i]),
    ensures
        non_space_chars(s) == s,
    decreases s.len(),
{
    if s.len() > 0 {
        lemma_no_space_id(s.drop_first());
        assert(seq![s[0]] + s.drop_first() =~= s);
    }
}

/// Removing whitespace distributes over concatenation.
proof fn lemma_non_space_distributes(a: Seq<char>, b: Seq<char>)
    ensures
        non_space_chars(a + b) == non_space_chars(a) + non_space_chars(b),
    decreases a.len(),
{
    if a.len() == 0 {
        assert(a + b =~= b);
        assert(Seq::<char>::empty() + non_space_chars(b) =~= non_space_chars(b));
    } else {
        lemma_non_space_distributes(a.drop_first(), b);
        assert((a + b).drop_first() =~= a.drop_first() + b);
        assert((a + b)[0] == a[0]);
        if !is_space_char(a[0]) {
            assert(seq![a[0]] + (non_space_chars(a.drop_first()) + non_space_chars(b))
                =~= (seq![a[0]] + non_space_chars(a.drop_first())) + non_space_chars(b));
        }
    }
}

/// None of the character classes that form a token overlaps whitespace.
proof fn lemma_token_chars_not_space(c: char)
    ensures
        is_ident_cont_char(c) ==> !is_space_char(c),
        is_punctuation_char(c) ==> !is_space_char(c),
        is_operator_char(c) ==> !is_space_char(c),
{
}

/// One tokenizer step reproduces exactly the non-whitespace characters it
/// consumed as the token's raw text, and never moves the cursor backwards.
pub proof fn lemma_step_reconstructs(s: Seq<char>, st: LexSt)
    requires
        0 <= st.pos <= s.len(),
    ensures
        match spec_next_token(s, st).res {
            Ok(t) => {
                let st2 = spec_next_token(s, st).st;
                &&& st.pos <= st2.pos <= s.len()
                &&& non_space_chars(s.subrange(st.pos, st2.pos)) == t.raw
                &&& (t.ty != TokenType::EOF ==> st.pos < st2.pos)
            },
            Err(_) => true,
        },
{
    lemma_skip_ws_props(s, st.pos, st.line, st.col);
    let (p, l, c) = skip_ws(s, st.pos, st.line, st.col);
    let ws = s.subrange(st.pos, p);
    assert forall|i: int| 0 <= i < ws.len() implies is_space_char(#[trigger] ws[i]) by {
        assert(ws[i] == s[st.pos + i]);
    }
    lemma_all_space_empty(ws);
    let step = spec_next_token(s, st);
    if step.res is Ok {
        let t = step.res->Ok_0;
        let e = step.st.pos;
        if t.ty == TokenType::EOF {
            assert(e == p);
            assert(s.subrange(st.pos, e) == ws);
            assert(t.raw =~= Seq::<char>::empty());
        } else {
            // the consumed span splits into skipped whitespace and the raw
            // text, whose characters all belong to non-whitespace classes
            if t.ty == TokenType::Identifier {
                lemma_ident_end_bounds(s, p + 1);
                lemma_ident_end_chars(s, p + 1);
            } else if t.ty == TokenType::Number {
                lemma_digits_end_bounds(s, p + 1);
                lemma_digits_end_chars(s, p);
            }
            let raw = s.subrange(p, e);
            assert forall|i: int| 0 <= i < raw.len() implies !is_space_char(#[trigger] raw[i]) by {
                assert(raw[i] == s[p + i]);
                lemma_token_chars_not_space(s[p + i]);
            }
            lemma_no_space_id(raw);
            assert(s.subrange(st.pos, e) =~= ws + raw);
            lemma_non_space_distributes(ws, raw);
            assert(Seq::<char>::empty() + raw =~= raw);
            assert(t.raw == raw);
        }
    }
}

/// A full tokenization never moves backwards, and on success the
/// concatenation of all raw texts is the non-whitespace text of exactly the
/// characters the run consumed.
pub proof fn lemma_tokenize_reconstructs(s: Seq<char>, st: LexSt)
    requires
        0 <= st.pos <= s.len(),
    ensures
        match spec_tokenize(s, st) {
            Ok((ts, stf)) => {
                &&& st.pos <= stf.pos <= s.len()
                &&& concat_raws(ts) == non_space_chars(s.subrange(st.pos, stf.pos))
            },
            Err(_) => true,
        },
    decreases s.len() - st.pos,
{
    lemma_step_reconstructs(s, st);
    let step = spec_next_token(s, st);
    match step.res {
        Err(_) => {},
        Ok(t) => {
            if t.ty == TokenType::EOF {
                reveal_with_fuel(concat_raws, 2);
                let ts = seq![t];
                assert(ts.drop_first() =~= Seq::<TokenV>::empty());
                assert(t.raw + Seq::<char>::empty() =~= t.raw);
            } else if st.pos < step.st.pos <= s.len() {
                lemma_tokenize_reconstructs(s, step.st);
                match spec_tokenize(s, step.st) {
                    Err(_) => {},
                    Ok((rest, stf)) => {
                        let ts = seq![t] + rest;
                        assert(ts[0] == t);
                        assert(ts.drop_first() =~= rest);
                        assert(s.subrange(st.pos, stf.pos)
                            =~= s.subrange(st.pos, step.st.pos) + s.subrange(step.st.pos, stf.pos));
                        lemma_non_space_distributes(
                            s.subrange(st.pos, step.st.pos),
                            s.subrange(step.st.pos, stf.pos),
                        );
                    },
                }
            }
        },
    }
}

/// On an input made only of recognized characters, a successful tokenization
/// consumes the whole input.
pub proof fn lemma_tokenize_consumes_all(s: Seq<char>, st: LexSt)
    requires
        0 <= st.pos <= s.len(),
        forall|i: int| st.pos <= i < s.len() ==> is_recognized_char(#[trigger] s[i]),
    ensures
        match spec_tokenize(s, st) {
            Ok((ts, stf)) => stf.pos == s.len(),
            Err(_) => true,
        },
    decreases s.len() - st.pos,
{
    lemma_skip_ws_props(s, st.pos, st.line, st.col);
    lemma_step_reconstructs(s, st);
    let step = spec_next_token(s, st);
    match step.res {
        Err(_) => {},
        Ok(t) => {
            if t.ty == TokenType::EOF {
                // the terminal step only fires at the end or on an
                // unrecognized character, and the input holds none
                let (p, l, c) = skip_ws(s, st.pos, st.line, st.col);
                assert(p == s.len());
            } else if st.pos < step.st.pos <= s.len() {
                lemma_tokenize_consumes_all(s, step.st);
            }
        },
    }
}

/// For a valid program, tokenizing and then concatenating the tokens' raw
/// texts reproduces the input's non-whitespace character stream.
pub proof fn lemma_tokens_reconstruct_input(s: Seq<char>)
    requires
        forall|i: int| 0 <= i < s.len() ==> is_recognized_char(#[trigger] s[i]),
    ensures
        match spec_tokenize(s, initial_st()) {
            Ok((ts, stf)) => concat_raws(ts) == non_space_chars(s),
            Err(_) => true,
        },
{
    lemma_tokenize_reconstructs(s, initial_st());
    lemma_tokenize_consumes_all(s, initial_st());
    if spec_tokenize(s, initial_st()) is Ok {
        let (ts, stf) = spec_tokenize(s, initial_st())->Ok_0;
        assert(s.subrange(0, stf.pos) =~= s);
    }
}

/// A successful tokenization leaves both bracket-depth counters at zero.
pub proof fn lemma_tokenize_balanced(s: Seq<char>, st: LexSt)
    requires
        0 <= st.pos <= s.len(),
        0 <= st.paren,
        0 <= st.curly,
    ensures
        match spec_tokenize(s, st) {
            Ok((ts, stf)) => stf.paren == 0 && stf.curly == 0,
            Err(_) => true,
        },
    decreases s.len() - st.pos,
{
    lemma_step_reconstructs(s, st);
    let step = spec_next_token(s, st);
    match step.res {
        Err(_) => {},
        Ok(t) => {
            if t.ty == TokenType::EOF {
            } else if st.pos < step.st.pos <= s.len() {
                lemma_tokenize_balanced(s, step.st);
            }
        },
    }
}

/// A closing bracket that has nothing open fails with `UnevenParentheses`,
/// at the position of the offending token.
pub proof fn lemma_unmatched_close_fails(s: Seq<char>, st: LexSt)
    requires
        0 <= st.pos <= s.len(),
        ({
            let (p, l, c) = skip_ws(s, st.pos, st.line, st.col);
            p < s.len() && ((s[p] == ')' && st.paren == 0) || (s[p] == '}' && st.curly == 0))
        }),
    ensures
        ({
            let (p, l, c) = skip_ws(s, st.pos, st.line, st.col);
            spec_next_token(s, st).res == Err::<TokenV, LexerErr>(LexerErr {
                kind: LexerErrKind::UnevenParentheses,
                collumn: (c + 1) as usize,
                line: l as usize,
            })
        }),
{
    lemma_skip_ws_props(s, st.pos, st.line, st.col);
}

/// A bracket still open when the input ends fails with `UnevenParentheses`.
pub proof fn lemma_unclosed_bracket_fails(s: Seq<char>, st: LexSt)
    requires
        0 <= st.pos <= s.len(),
        st.paren > 0 || st.curly > 0,
        ({
            let (p, l, c) = skip_ws(s, st.pos, st.line, st.col);
            p == s.len()
        }),
    ensures
        ({
            let (p, l, c) = skip_ws(s, st.pos, st.line, st.col);
            spec_next_token(s, st).res == Err::<TokenV, LexerErr>(LexerErr {
                kind: LexerErrKind::UnevenParentheses,
                collumn: c as usize,
                line: l as usize,
            })
        }),
{
}

} // verus!
