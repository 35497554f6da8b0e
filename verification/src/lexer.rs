//! Lexical analysis: turns the source text into a flat sequence of
//! tokens terminated by exactly one end-of-input token.
//!
//! The whole scan is specified by `spec_next_token` and
//! `spec_tokenize_from` over the character sequence, and the
//! executable lexer is proved to produce exactly those tokens.
//!
//! A floating-point literal is carried as its decimal digits (whole
//! part and fraction part, both normalized), never as a machine float,
//! so the token is an exact record of the literal's value.

use vstd::prelude::*;

use crate::text::char_alnum;
use crate::text::char_alpha;
use crate::text::chars_of;
use crate::text::is_alnum_char;
use crate::text::is_alpha_char;
use crate::text::push_char;

verus! {

/// The characters considered horizontal whitespace by the lexer.
pub open spec fn is_space(c: char) -> bool {
    c == ' ' || c == '\t' || c == '\r'
}

/// The ten ASCII decimal digit characters.
pub open spec fn is_digit(c: char) -> bool {
    '0' <= c && c <= '9'
}

/// Whether `c` is an ASCII decimal digit, as executable code.
pub fn is_digit_char(c: char) -> (r: bool)
    ensures
        r == is_digit(c),
{
    '0' <= c && c <= '9'
}

/// Tokens of the BASIC language.
///
/// `Float` holds the literal's decimal digits: the whole part without
/// leading zeros (at least one digit) and the fraction part without
/// trailing zeros (possibly empty).
#[derive(Debug, Clone, PartialEq)]
pub enum Token {
    Identifier(String),
    StrLit(String),
    Number(i64),
    Float { whole: String, frac: String },
    // Operators
    OperatorAdd,
    OperatorSubtract,
    OperatorMultiply,
    OperatorDivide,
    OperatorPower,
    // Comparators
    Equal,
    NotEqual,
    LessThan,
    LessOrEqual,
    GreaterThan,
    GreaterOrEqual,
    // Punctuation
    Comma,
    Semicolon,
    LeftParen,
    RightParen,
    Newline,
    Eof,
    // Keywords
    Else,
    End,
    For,
    Goto,
    If,
    Input,
    Let,
    Next,
    Print,
    Rem,
    Step,
    Then,
    To,
}

/// The mathematical model of a token: strings become character
/// sequences and numbers become unbounded integers.
pub enum SpecToken {
    Identifier(Seq<char>),
    StrLit(Seq<char>),
    Number(int),
    Float(Seq<char>, Seq<char>),
    OperatorAdd,
    OperatorSubtract,
    OperatorMultiply,
    OperatorDivide,
    OperatorPower,
    Equal,
    NotEqual,
    LessThan,
    LessOrEqual,
    GreaterThan,
    GreaterOrEqual,
    Comma,
    Semicolon,
    LeftParen,
    RightParen,
    Newline,
    Eof,
    Else,
    End,
    For,
    Goto,
    If,
    Input,
    Let,
    Next,
    Print,
    Rem,
    Step,
    Then,
    To,
}

impl DeepView for Token {
    type V = SpecToken;

    open spec fn deep_view(&self) -> SpecToken {
        match self {
            Token::Identifier(name) => SpecToken::Identifier(name@),
            Token::StrLit(s) => SpecToken::StrLit(s@),
            Token::Number(n) => SpecToken::Number(*n as int),
            Token::Float { whole, frac } => SpecToken::Float(whole@, frac@),
            Token::OperatorAdd => SpecToken::OperatorAdd,
            Token::OperatorSubtract => SpecToken::OperatorSubtract,
            Token::OperatorMultiply => SpecToken::OperatorMultiply,
            Token::OperatorDivide => SpecToken::OperatorDivide,
            Token::OperatorPower => SpecToken::OperatorPower,
            Token::Equal => SpecToken::Equal,
            Token::NotEqual => SpecToken::NotEqual,
            Token::LessThan => SpecToken::LessThan,
            Token::LessOrEqual => SpecToken::LessOrEqual,
            Token::GreaterThan => SpecToken::GreaterThan,
            Token::GreaterOrEqual => SpecToken::GreaterOrEqual,
            Token::Comma => SpecToken::Comma,
            Token::Semicolon => SpecToken::Semicolon,
            Token::LeftParen => SpecToken::LeftParen,
            Token::RightParen => SpecToken::RightParen,
            Token::Newline => SpecToken::Newline,
            Token::Eof => SpecToken::Eof,
            Token::Else => SpecToken::Else,
            Token::End => SpecToken::End,
            Token::For => SpecToken::For,
            Token::Goto => SpecToken::Goto,
            Token::If => SpecToken::If,
            Token::Input => SpecToken::Input,
            Token::Let => SpecToken::Let,
            Token::Next => SpecToken::Next,
            Token::Print => SpecToken::Print,
            Token::Rem => SpecToken::Rem,
            Token::Step => SpecToken::Step,
            Token::Then => SpecToken::Then,
            Token::To => SpecToken::To,
        }
    }
}

/// A lexical error: the character at the given position matches no
/// token rule.
#[derive(Debug, Clone, PartialEq)]
pub struct LexError {
    pub position: usize,
    pub ch: char,
}

/// Model of a lexical error.
pub struct SpecLexError {
    pub pos: int,
    pub ch: char,
}

impl DeepView for LexError {
    type V = SpecLexError;

    open spec fn deep_view(&self) -> SpecLexError {
        SpecLexError { pos: self.position as int, ch: self.ch }
    }
}

// ----------------------------------------------------------------------
// Scanning positions
// ----------------------------------------------------------------------

/// The first position at or after `i` whose character is not a space,
/// tab or carriage return (or the end of the text).
pub open spec fn skip_spaces(s: Seq<char>, i: int) -> int
    decreases s.len() - i,
        when 0 <= i <= s.len()
{
    if i < s.len() && is_space(s[i]) {
        skip_spaces(s, i + 1)
    } else {
        i
    }
}

/// The end of the identifier run starting at `i`: the first position
/// whose character is neither alphanumeric nor `_`.
pub open spec fn scan_word_end(s: Seq<char>, i: int) -> int
    decreases s.len() - i,
        when 0 <= i <= s.len()
{
    if i < s.len() && (char_alnum(s[i]) || s[i] == '_') {
        scan_word_end(s, i + 1)
    } else {
        i
    }
}

/// The end of the digit run starting at `i`.
pub open spec fn scan_digits_end(s: Seq<char>, i: int) -> int
    decreases s.len() - i,
        when 0 <= i <= s.len()
{
    if i < s.len() && is_digit(s[i]) {
        scan_digits_end(s, i + 1)
    } else {
        i
    }
}

/// The position of the closing `"` at or after `i`, or the end of the
/// text when the string literal is unterminated.
pub open spec fn scan_string_end(s: Seq<char>, i: int) -> int
    decreases s.len() - i,
        when 0 <= i <= s.len()
{
    if i < s.len() && s[i] != '"' {
        scan_string_end(s, i + 1)
    } else {
        i
    }
}

/// The position of the next newline at or after `i`, or the end of the
/// text.
pub open spec fn scan_line_end(s: Seq<char>, i: int) -> int
    decreases s.len() - i,
        when 0 <= i <= s.len()
{
    if i < s.len() && s[i] != '\n' {
        scan_line_end(s, i + 1)
    } else {
        i
    }
}

pub proof fn lemma_skip_spaces_bounds(s: Seq<char>, i: int)
    requires
        0 <= i <= s.len(),
    ensures
        i <= skip_spaces(s, i) <= s.len(),
    decreases s.len() - i,
{
    if i < s.len() && is_space(s[i]) {
        lemma_skip_spaces_bounds(s, i + 1);
    }
}

pub proof fn lemma_scan_word_end_bounds(s: Seq<char>, i: int)
    requires
        0 <= i <= s.len(),
    ensures
        i <= scan_word_end(s, i) <= s.len(),
    decreases s.len() - i,
{
    if i < s.len() && (char_alnum(s[i]) || s[i] == '_') {
        lemma_scan_word_end_bounds(s, i + 1);
    }
}

pub proof fn lemma_scan_digits_end_bounds(s: Seq<char>, i: int)
    requires
        0 <= i <= s.len(),
    ensures
        i <= scan_digits_end(s, i) <= s.len(),
    decreases s.len() - i,
{
    if i < s.len() && is_digit(s[i]) {
        lemma_scan_digits_end_bounds(s, i + 1);
    }
}

pub proof fn lemma_scan_string_end_bounds(s: Seq<char>, i: int)
    requires
        0 <= i <= s.len(),
    ensures
        i <= scan_string_end(s, i) <= s.len(),
    decreases s.len() - i,
{
    if i < s.len() && s[i] != '"' {
        lemma_scan_string_end_bounds(s, i + 1);
    }
}

pub proof fn lemma_scan_line_end_bounds(s: Seq<char>, i: int)
    requires
        0 <= i <= s.len(),
    ensures
        i <= scan_line_end(s, i) <= s.len(),
    decreases s.len() - i,
{
    if i < s.len() && s[i] != '\n' {
        lemma_scan_line_end_bounds(s, i + 1);
    }
}

// ----------------------------------------------------------------------
// Numeric literal values
// ----------------------------------------------------------------------

/// The value of a run of decimal digit characters.
pub open spec fn dec_val(d: Seq<char>) -> int
    decreases d.len(),
{
    if d.len() == 0 {
        0
    } else {
        dec_val(d.drop_last()) * 10 + (d.last() as int - 48)
    }
}

/// The value carried by an integer literal token: the digits' value,
/// or 0 when the value does not fit in a 64-bit signed integer
/// (mirroring the lenient overflow-to-zero parse).
pub open spec fn num_of_digits(d: Seq<char>) -> int {
    if dec_val(d) <= i64::MAX {
        dec_val(d)
    } else {
        0
    }
}

pub proof fn lemma_dec_val_nonneg(d: Seq<char>)
    requires
        forall|k: int| 0 <= k < d.len() ==> is_digit(#[trigger] d[k]),
    ensures
        dec_val(d) >= 0,
    decreases d.len(),
{
    if d.len() > 0 {
        lemma_dec_val_nonneg(d.drop_last());
    }
}

/// The whole part of a float literal with leading zeros removed, down
/// to a single digit.
pub open spec fn trim_front_zeros(d: Seq<char>) -> Seq<char>
    decreases d.len(),
{
    if d.len() > 1 && d[0] == '0' {
        trim_front_zeros(d.drop_first())
    } else {
        d
    }
}

/// The fraction part of a float literal with trailing zeros removed,
/// possibly down to nothing.
pub open spec fn trim_back_zeros(d: Seq<char>) -> Seq<char>
    decreases d.len(),
{
    if d.len() > 0 && d.last() == '0' {
        trim_back_zeros(d.drop_last())
    } else {
        d
    }
}

// ----------------------------------------------------------------------
// Keywords
// ----------------------------------------------------------------------

/// Whether `c` matches the uppercase ASCII letter `u`, ignoring case.
pub open spec fn kw_char(c: char, u: char) -> bool {
    c == u || c as u32 == u as u32 + 32
}

/// Whether the word `w` matches the uppercase keyword `u`, ignoring
/// ASCII case.
pub open spec fn kw_is(w: Seq<char>, u: Seq<char>) -> bool {
    w.len() == u.len() && (forall|k: int| 0 <= k < w.len() ==> #[trigger] kw_char(w[k], u[k]))
}

/// The keyword token for a word, if the word matches one of the
/// thirteen keywords (case-insensitively).
pub open spec fn spec_keyword(w: Seq<char>) -> Option<SpecToken> {
    if kw_is(w, seq!['E', 'L', 'S', 'E']) {
        Some(SpecToken::Else)
    } else if kw_is(w, seq!['E', 'N', 'D']) {
        Some(SpecToken::End)
    } else if kw_is(w, seq!['F', 'O', 'R']) {
        Some(SpecToken::For)
    } else if kw_is(w, seq!['G', 'O', 'T', 'O']) {
        Some(SpecToken::Goto)
    } else if kw_is(w, seq!['I', 'F']) {
        Some(SpecToken::If)
    } else if kw_is(w, seq!['I', 'N', 'P', 'U', 'T']) {
        Some(SpecToken::Input)
    } else if kw_is(w, seq!['L', 'E', 'T']) {
        Some(SpecToken::Let)
    } else if kw_is(w, seq!['N', 'E', 'X', 'T']) {
        Some(SpecToken::Next)
    } else if kw_is(w, seq!['P', 'R', 'I', 'N', 'T']) {
        Some(SpecToken::Print)
    } else if kw_is(w, seq!['R', 'E', 'M']) {
        Some(SpecToken::Rem)
    } else if kw_is(w, seq!['S', 'T', 'E', 'P']) {
        Some(SpecToken::Step)
    } else if kw_is(w, seq!['T', 'H', 'E', 'N']) {
        Some(SpecToken::Then)
    } else if kw_is(w, seq!['T', 'O']) {
        Some(SpecToken::To)
    } else {
        None
    }
}

/// Whether `c` matches the uppercase ASCII letter `u`, ignoring case.
pub(crate) fn kw_char_exec(c: char, u: char) -> (b: bool)
    ensures
        b == kw_char(c, u),
{
    c == u || (c as u32) == (u as u32) + 32
}

// ----------------------------------------------------------------------
// The lexer
// ----------------------------------------------------------------------

/// The lexer: the source text as characters, and a cursor.
pub struct Lexer {
    pub input: Vec<char>,
    pub position: usize,
}

impl Lexer {
    /// The cursor never runs past the end of the input.
    pub open spec fn wf(&self) -> bool {
        self.position <= self.input@.len()
    }

    /// A fresh lexer positioned at the start of the source text.
    pub fn new(input: &str) -> (l: Lexer)
        ensures
            l.wf(),
            l.input@ == input@,
            l.position == 0,
    {
        Lexer { input: chars_of(input), position: 0 }
    }

    /// The character under the cursor, if any.
    pub fn current_char(&self) -> (r: Option<char>)
        ensures
            r == spec_current_char(self.input@, self.position as int),
    {
        if self.position < self.input.len() {
            Some(self.input[self.position])
        } else {
            None
        }
    }

    /// Moves the cursor one character forward.
    pub fn advance(&mut self)
        requires
            old(self).position < usize::MAX,
        ensures
            final(self).input@ == old(self).input@,
            final(self).position == old(self).position + 1,
    {
        self.position += 1;
    }

    /// Skips spaces, tabs and carriage returns.
    pub fn skip_whitespace(&mut self)
        requires
            old(self).wf(),
        ensures
            final(self).wf(),
            final(self).input@ == old(self).input@,
            final(self).position as int == skip_spaces(old(self).input@, old(self).position as int),
    {
        let ghost s = self.input@;
        loop
            invariant
                self.wf(),
                self.input@ == s,
                skip_spaces(s, self.position as int) == skip_spaces(s, old(self).position as int),
            ensures
                self.wf(),
                self.input@ == s,
                self.position as int == skip_spaces(s, old(self).position as int),
            decreases s.len() - self.position,
        {
            if self.position < self.input.len() {
                let ch = self.input[self.position];
                if ch == ' ' || ch == '\t' || ch == '\r' {
                    self.position += 1;
                    continue ;
                }
            }
            break ;
        }
    }

    /// Reads the identifier run (alphanumeric or `_`) under the cursor.
    pub fn read_identifier(&mut self) -> (r: String)
        requires
            old(self).wf(),
        ensures
            final(self).wf(),
            final(self).input@ == old(self).input@,
            final(self).position as int == scan_word_end(old(self).input@, old(self).position as int),
            r@ == old(self).input@.subrange(old(self).position as int, final(self).position as int),
    {
        let ghost s = self.input@;
        let ghost start = self.position as int;
        let mut identifier = String::new();
        loop
            invariant
                self.wf(),
                self.input@ == s,
                0 <= start <= self.position as int,
                scan_word_end(s, self.position as int) == scan_word_end(s, start),
                identifier@ == s.subrange(start, self.position as int),
            ensures
                self.wf(),
                self.input@ == s,
                self.position as int == scan_word_end(s, start),
                identifier@ == s.subrange(start, self.position as int),
            decreases s.len() - self.position,
        {
            if self.position < self.input.len() {
                let ch = self.input[self.position];
                if is_alnum_char(ch) || ch == '_' {
                    let ghost p = self.position as int;
                    push_char(&mut identifier, ch);
                    self.position += 1;
                    proof {
                        assert(identifier@ == s.subrange(start, p).push(s[p]));
                        assert(identifier@ =~= s.subrange(start, p + 1));
                    }
                    continue ;
                }
            }
            break ;
        }
        identifier
    }

    /// Reads a string literal: the cursor is on the opening `"`; the
    /// content runs to the closing `"` (consumed) or to the end of the
    /// input when the literal is unterminated.
    pub fn read_string(&mut self) -> (r: String)
        requires
            old(self).wf(),
            old(self).position < old(self).input@.len(),
        ensures
            final(self).wf(),
            final(self).input@ == old(self).input@,
            ({
                let s = old(self).input@;
                let start = old(self).position + 1;
                let e = scan_string_end(s, start as int);
                r@ == s.subrange(start as int, e) && final(self).position as int == (
                if e < s.len() {
                    e + 1
                } else {
                    e
                })
            }),
    {
        let n = self.input.len();
        proof {
            assert(self.position < n);
        }
        self.position += 1;  // skip the opening quote
        let ghost s = self.input@;
        let ghost start = self.position as int;
        let mut content = String::new();
        loop
            invariant_except_break
                scan_string_end(s, self.position as int) == scan_string_end(s, start),
                content@ == s.subrange(start, self.position as int),
            invariant
                self.wf(),
                self.input@ == s,
                0 <= start <= self.position as int,
            ensures
                self.wf(),
                self.input@ == s,
                ({
                    let e = scan_string_end(s, start);
                    content@ == s.subrange(start, e) && self.position as int == (
                    if e < s.len() {
                        e + 1
                    } else {
                        e
                    })
                }),
            decreases s.len() - self.position,
        {
            if self.position < self.input.len() {
                let ch = self.input[self.position];
                let ghost p = self.position as int;
                if ch == '"' {
                    self.position += 1;
                    proof {
                        assert(scan_string_end(s, p) == p);
                    }
                    break ;
                }
                push_char(&mut content, ch);
                self.position += 1;
                proof {
                    assert(content@ == s.subrange(start, p).push(s[p]));
                    assert(content@ =~= s.subrange(start, p + 1));
                }
                continue ;
            }
            break ;
        }
        content
    }
}

/// The character at position `pos`, if `pos` is inside the text.
pub open spec fn spec_current_char(s: Seq<char>, pos: int) -> Option<char> {
    if 0 <= pos < s.len() {
        Some(s[pos])
    } else {
        None
    }
}

// ----------------------------------------------------------------------
// Range helpers used by the token builders
// ----------------------------------------------------------------------

/// Copies the characters of `input[start..end]` into a fresh string.
fn copy_range(input: &Vec<char>, start: usize, end: usize) -> (r: String)
    requires
        start <= end <= input@.len(),
    ensures
        r@ == input@.subrange(start as int, end as int),
{
    let mut r = String::new();
    let mut i = start;
    while i < end
        invariant
            start <= i <= end <= input@.len(),
            r@ == input@.subrange(start as int, i as int),
        decreases end - i,
    {
        push_char(&mut r, input[i]);
        i += 1;
        proof {
            assert(r@ =~= input@.subrange(start as int, i as int));
        }
    }
    r
}

/// The 64-bit value of the digit run `input[start..end]`, with the
/// overflow-to-zero leniency of `num_of_digits`.
fn digits_value(input: &Vec<char>, start: usize, end: usize) -> (v: i64)
    requires
        start <= end <= input@.len(),
        forall|k: int| start <= k < end ==> is_digit(#[trigger] input@[k]),
    ensures
        v as int == num_of_digits(input@.subrange(start as int, end as int)),
{
    let mut acc: i64 = 0;
    let mut fits = true;
    let mut i = start;
    while i < end
        invariant
            start <= i <= end <= input@.len(),
            forall|k: int| start <= k < end ==> is_digit(#[trigger] input@[k]),
            fits ==> acc as int == dec_val(input@.subrange(start as int, i as int)) && acc >= 0,
            !fits ==> dec_val(input@.subrange(start as int, i as int)) > i64::MAX,
        decreases end - i,
    {
        let ghost prefix = input@.subrange(start as int, i as int);
        let d = (input[i] as u32) - 48;
        proof {
            assert(input@.subrange(start as int, i as int + 1) =~= prefix.push(input@[i as int]));
            assert(input@.subrange(start as int, i as int + 1).drop_last() =~= prefix);
            lemma_dec_val_nonneg(prefix);
        }
        if fits {
            let wide: i128 = (acc as i128) * 10 + (d as i128);
            if wide > i64::MAX as i128 {
                fits = false;
            } else {
                acc = wide as i64;
            }
        }
        i += 1;
    }
    if fits {
        acc
    } else {
        0
    }
}


// ----------------------------------------------------------------------
// Keyword matching, executable
// ----------------------------------------------------------------------

/// Whether `input[start..end]` matches the two-letter keyword `u0 u1`.
fn kw_eq2(input: &Vec<char>, start: usize, end: usize, u0: char, u1: char) -> (b: bool)
    requires
        start <= end <= input@.len(),
    ensures
        b == kw_is(input@.subrange(start as int, end as int), seq![u0, u1]),
{
    let ghost w = input@.subrange(start as int, end as int);
    let ghost u = seq![u0, u1];
    if end - start != 2 {
        return false;
    }
    let b = kw_char_exec(input[start], u0) && kw_char_exec(input[start + 1], u1);
    proof {
        if b {
            assert forall|k: int| 0 <= k < w.len() implies #[trigger] kw_char(w[k], u[k]) by {
                assert(w[k] == input@[start + k]);
            }
        } else if kw_is(w, u) {
            assert(kw_char(w[0], u[0]));
            assert(kw_char(w[1], u[1]));
        }
    }
    b
}

/// Whether `input[start..end]` matches the three-letter keyword `u0 u1 u2`.
fn kw_eq3(input: &Vec<char>, start: usize, end: usize, u0: char, u1: char, u2: char) -> (b: bool)
    requires
        start <= end <= input@.len(),
    ensures
        b == kw_is(input@.subrange(start as int, end as int), seq![u0, u1, u2]),
{
    let ghost w = input@.subrange(start as int, end as int);
    let ghost u = seq![u0, u1, u2];
    if end - start != 3 {
        return false;
    }
    let b = kw_char_exec(input[start], u0) && kw_char_exec(input[start + 1], u1) && kw_char_exec(
        input[start + 2],
        u2,
    );
    proof {
        if b {
            assert forall|k: int| 0 <= k < w.len() implies #[trigger] kw_char(w[k], u[k]) by {
                assert(w[k] == input@[start + k]);
            }
        } else if kw_is(w, u) {
            assert(kw_char(w[0], u[0]));
            assert(kw_char(w[1], u[1]));
            assert(kw_char(w[2], u[2]));
        }
    }
    b
}

/// Whether `input[start..end]` matches the four-letter keyword given.
fn kw_eq4(
    input: &Vec<char>,
    start: usize,
    end: usize,
    u0: char,
    u1: char,
    u2: char,
    u3: char,
) -> (b: bool)
    requires
        start <= end <= input@.len(),
    ensures
        b == kw_is(input@.subrange(start as int, end as int), seq![u0, u1, u2, u3]),
{
    let ghost w = input@.subrange(start as int, end as int);
    let ghost u = seq![u0, u1, u2, u3];
    if end - start != 4 {
        return false;
    }
    let b = kw_char_exec(input[start], u0) && kw_char_exec(input[start + 1], u1) && kw_char_exec(
        input[start + 2],
        u2,
    ) && kw_char_exec(input[start + 3], u3);
    proof {
        if b {
            assert forall|k: int| 0 <= k < w.len() implies #[trigger] kw_char(w[k], u[k]) by {
                assert(w[k] == input@[start + k]);
            }
        } else if kw_is(w, u) {
            assert(kw_char(w[0], u[0]));
            assert(kw_char(w[1], u[1]));
            assert(kw_char(w[2], u[2]));
            assert(kw_char(w[3], u[3]));
        }
    }
    b
}

/// Whether `input[start..end]` matches the five-letter keyword given.
fn kw_eq5(
    input: &Vec<char>,
    start: usize,
    end: usize,
    u0: char,
    u1: char,
    u2: char,
    u3: char,
    u4: char,
) -> (b: bool)
    requires
        start <= end <= input@.len(),
    ensures
        b == kw_is(input@.subrange(start as int, end as int), seq![u0, u1, u2, u3, u4]),
{
    let ghost w = input@.subrange(start as int, end as int);
    let ghost u = seq![u0, u1, u2, u3, u4];
    if end - start != 5 {
        return false;
    }
    let b = kw_char_exec(input[start], u0) && kw_char_exec(input[start + 1], u1) && kw_char_exec(
        input[start + 2],
        u2,
    ) && kw_char_exec(input[start + 3], u3) && kw_char_exec(input[start + 4], u4);
    proof {
        if b {
            assert forall|k: int| 0 <= k < w.len() implies #[trigger] kw_char(w[k], u[k]) by {
                assert(w[k] == input@[start + k]);
            }
        } else if kw_is(w, u) {
            assert(kw_char(w[0], u[0]));
            assert(kw_char(w[1], u[1]));
            assert(kw_char(w[2], u[2]));
            assert(kw_char(w[3], u[3]));
            assert(kw_char(w[4], u[4]));
        }
    }
    b
}

/// The keyword token for `input[start..end]`, if any, mirroring
/// `spec_keyword`.
fn match_keyword(input: &Vec<char>, start: usize, end: usize) -> (t: Option<Token>)
    requires
        start <= end <= input@.len(),
    ensures
        ({
            let k = spec_keyword(input@.subrange(start as int, end as int));
            match t {
                Some(tok) => k == Some(tok.deep_view()),
                None => k is None,
            }
        }),
{
    if kw_eq4(input, start, end, 'E', 'L', 'S', 'E') {
        return Some(Token::Else);
    }
    if kw_eq3(input, start, end, 'E', 'N', 'D') {
        return Some(Token::End);
    }
    if kw_eq3(input, start, end, 'F', 'O', 'R') {
        return Some(Token::For);
    }
    if kw_eq4(input, start, end, 'G', 'O', 'T', 'O') {
        return Some(Token::Goto);
    }
    if kw_eq2(input, start, end, 'I', 'F') {
        return Some(Token::If);
    }
    if kw_eq5(input, start, end, 'I', 'N', 'P', 'U', 'T') {
        return Some(Token::Input);
    }
    if kw_eq3(input, start, end, 'L', 'E', 'T') {
        return Some(Token::Let);
    }
    if kw_eq4(input, start, end, 'N', 'E', 'X', 'T') {
        return Some(Token::Next);
    }
    if kw_eq5(input, start, end, 'P', 'R', 'I', 'N', 'T') {
        return Some(Token::Print);
    }
    if kw_eq3(input, start, end, 'R', 'E', 'M') {
        return Some(Token::Rem);
    }
    if kw_eq4(input, start, end, 'S', 'T', 'E', 'P') {
        return Some(Token::Step);
    }
    if kw_eq4(input, start, end, 'T', 'H', 'E', 'N') {
        return Some(Token::Then);
    }
    if kw_eq2(input, start, end, 'T', 'O') {
        return Some(Token::To);
    }
    None
}

// ----------------------------------------------------------------------
// Trimming float digits, executable
// ----------------------------------------------------------------------

/// The start of the whole part after removing leading zeros, down to a
/// single digit.
fn trimmed_front_start(input: &Vec<char>, start: usize, end: usize) -> (b: usize)
    requires
        start <= end <= input@.len(),
    ensures
        start <= b <= end,
        input@.subrange(b as int, end as int) == trim_front_zeros(
            input@.subrange(start as int, end as int),
        ),
{
    let ghost s = input@;
    let mut b = start;
    while end - b > 1 && input[b] == '0'
        invariant
            start <= b <= end <= s.len(),
            input@ == s,
            trim_front_zeros(s.subrange(start as int, end as int)) == trim_front_zeros(
                s.subrange(b as int, end as int),
            ),
        decreases end - b,
    {
        proof {
            assert(s.subrange(b as int, end as int).drop_first() =~= s.subrange(
                b as int + 1,
                end as int,
            ));
        }
        b += 1;
    }
    proof {
        assert(trim_front_zeros(s.subrange(b as int, end as int)) == s.subrange(
            b as int,
            end as int,
        ));
    }
    b
}

/// The end of the fraction part after removing trailing zeros,
/// possibly down to nothing.
fn trimmed_back_end(input: &Vec<char>, start: usize, end: usize) -> (e: usize)
    requires
        start <= end <= input@.len(),
    ensures
        start <= e <= end,
        input@.subrange(start as int, e as int) == trim_back_zeros(
            input@.subrange(start as int, end as int),
        ),
{
    let ghost s = input@;
    let mut e = end;
    while e > start && input[e - 1] == '0'
        invariant
            start <= e <= end <= s.len(),
            input@ == s,
            trim_back_zeros(s.subrange(start as int, end as int)) == trim_back_zeros(
                s.subrange(start as int, e as int),
            ),
        decreases e,
    {
        proof {
            assert(s.subrange(start as int, e as int).drop_last() =~= s.subrange(
                start as int,
                e as int - 1,
            ));
        }
        e -= 1;
    }
    proof {
        assert(trim_back_zeros(s.subrange(start as int, e as int)) == s.subrange(
            start as int,
            e as int,
        ));
    }
    e
}

/// All characters of a digit run really are digits.
pub proof fn lemma_scan_digits_chars(s: Seq<char>, i: int)
    requires
        0 <= i <= s.len(),
    ensures
        forall|k: int| i <= k < scan_digits_end(s, i) ==> is_digit(#[trigger] s[k]),
    decreases s.len() - i,
{
    if i < s.len() && is_digit(s[i]) {
        lemma_scan_digits_chars(s, i + 1);
    } else {
        lemma_scan_digits_end_bounds(s, i);
    }
}

// ----------------------------------------------------------------------
// The token scan itself
// ----------------------------------------------------------------------

/// The next token starting at `pos`, and the position just after it:
/// skip whitespace, then dispatch on the first character.
pub open spec fn spec_next_token(s: Seq<char>, pos: int) -> (Result<SpecToken, SpecLexError>, int) {
    let i = skip_spaces(s, pos);
    if !(0 <= i < s.len()) {
        (Ok(SpecToken::Eof), i)
    } else {
        let c = s[i];
        if c == '\n' {
            (Ok(SpecToken::Newline), i + 1)
        } else if c == '+' {
            (Ok(SpecToken::OperatorAdd), i + 1)
        } else if c == '-' {
            (Ok(SpecToken::OperatorSubtract), i + 1)
        } else if c == '*' {
            (Ok(SpecToken::OperatorMultiply), i + 1)
        } else if c == '/' {
            (Ok(SpecToken::OperatorDivide), i + 1)
        } else if c == '^' {
            (Ok(SpecToken::OperatorPower), i + 1)
        } else if c == '=' {
            (Ok(SpecToken::Equal), i + 1)
        } else if c == '<' {
            if i + 1 < s.len() && s[i + 1] == '=' {
                (Ok(SpecToken::LessOrEqual), i + 2)
            } else if i + 1 < s.len() && s[i + 1] == '>' {
                (Ok(SpecToken::NotEqual), i + 2)
            } else {
                (Ok(SpecToken::LessThan), i + 1)
            }
        } else if c == '>' {
            if i + 1 < s.len() && s[i + 1] == '=' {
                (Ok(SpecToken::GreaterOrEqual), i + 2)
            } else {
                (Ok(SpecToken::GreaterThan), i + 1)
            }
        } else if c == ',' {
            (Ok(SpecToken::Comma), i + 1)
        } else if c == ';' {
            (Ok(SpecToken::Semicolon), i + 1)
        } else if c == '(' {
            (Ok(SpecToken::LeftParen), i + 1)
        } else if c == ')' {
            (Ok(SpecToken::RightParen), i + 1)
        } else if c == '"' {
            let e = scan_string_end(s, i + 1);
            (
                Ok(SpecToken::StrLit(s.subrange(i + 1, e))),
                if e < s.len() {
                    e + 1
                } else {
                    e
                },
            )
        } else if c == '.' {
            let e = scan_digits_end(s, i + 1);
            (Ok(SpecToken::Float(seq!['0'], trim_back_zeros(s.subrange(i + 1, e)))), e)
        } else if is_digit(c) {
            let e = scan_digits_end(s, i);
            if e < s.len() && s[e] == '.' {
                let e2 = scan_digits_end(s, e + 1);
                (
                    Ok(
                        SpecToken::Float(
                            trim_front_zeros(s.subrange(i, e)),
                            trim_back_zeros(s.subrange(e + 1, e2)),
                        ),
                    ),
                    e2,
                )
            } else {
                (Ok(SpecToken::Number(num_of_digits(s.subrange(i, e)))), e)
            }
        } else if char_alpha(c) {
            let e = scan_word_end(s, i);
            let w = s.subrange(i, e);
            match spec_keyword(w) {
                Some(SpecToken::Rem) => (Ok(SpecToken::Rem), scan_line_end(s, e)),
                Some(k) => (Ok(k), e),
                None => (Ok(SpecToken::Identifier(w)), e),
            }
        } else {
            (Err(SpecLexError { pos: i, ch: c }), i)
        }
    }
}

/// Every token ends no earlier than it starts, inside the text, and a
/// token other than end-of-input takes at least one character.
pub proof fn lemma_next_token_in_range(s: Seq<char>, pos: int)
    requires
        0 <= pos <= s.len(),
    ensures
        ({
            let (r, end) = spec_next_token(s, pos);
            pos <= end <= s.len() && (match r {
                Ok(t) => t == SpecToken::Eof || end > pos,
                Err(_) => true,
            })
        }),
{
    lemma_skip_spaces_bounds(s, pos);
    let i = skip_spaces(s, pos);
    if 0 <= i < s.len() {
        let c = s[i];
        if c == '"' {
            lemma_scan_string_end_bounds(s, i + 1);
        } else if c == '.' {
            lemma_scan_digits_end_bounds(s, i + 1);
        } else if is_digit(c) {
            lemma_scan_digits_end_bounds(s, i + 1);
            let e = scan_digits_end(s, i);
            assert(e == scan_digits_end(s, i + 1));
            if e < s.len() && s[e] == '.' {
                lemma_scan_digits_end_bounds(s, e + 1);
            }
        } else if char_alpha(c) {
            lemma_scan_word_end_bounds(s, i + 1);
            let e = scan_word_end(s, i);
            assert(char_alnum(c));
            assert(e == scan_word_end(s, i + 1));
            lemma_scan_line_end_bounds(s, e);
        }
    }
}

impl Lexer {
    /// Skips everything up to (not including) the next newline, as a
    /// comment body is discarded.
    fn skip_to_line_end(&mut self)
        requires
            old(self).wf(),
        ensures
            final(self).wf(),
            final(self).input@ == old(self).input@,
            final(self).position as int == scan_line_end(old(self).input@, old(self).position as int),
    {
        let ghost s = self.input@;
        loop
            invariant
                self.wf(),
                self.input@ == s,
                scan_line_end(s, self.position as int) == scan_line_end(s, old(self).position as int),
            ensures
                self.wf(),
                self.input@ == s,
                self.position as int == scan_line_end(s, old(self).position as int),
            decreases s.len() - self.position,
        {
            if self.position < self.input.len() {
                let ch = self.input[self.position];
                if ch != '\n' {
                    self.position += 1;
                    continue ;
                }
            }
            break ;
        }
    }

    /// Moves the cursor past the digit run under it.
    fn scan_digits(&mut self)
        requires
            old(self).wf(),
        ensures
            final(self).wf(),
            final(self).input@ == old(self).input@,
            final(self).position as int == scan_digits_end(
                old(self).input@,
                old(self).position as int,
            ),
    {
        let ghost s = self.input@;
        loop
            invariant
                self.wf(),
                self.input@ == s,
                scan_digits_end(s, self.position as int) == scan_digits_end(
                    s,
                    old(self).position as int,
                ),
            ensures
                self.wf(),
                self.input@ == s,
                self.position as int == scan_digits_end(s, old(self).position as int),
            decreases s.len() - self.position,
        {
            if self.position < self.input.len() {
                let ch = self.input[self.position];
                if is_digit_char(ch) {
                    self.position += 1;
                    continue ;
                }
            }
            break ;
        }
    }

    /// Produces the next token, or the lexical error for a character
    /// matching no token rule, exactly as `spec_next_token` says.
    pub fn next_token(&mut self) -> (r: Result<Token, LexError>)
        requires
            old(self).wf(),
        ensures
            final(self).wf(),
            final(self).input@ == old(self).input@,
            ({
                let (res, end) = spec_next_token(old(self).input@, old(self).position as int);
                final(self).position as int == end && (match (r, res) {
                    (Ok(t), Ok(m)) => t.deep_view() == m,
                    (Err(e), Err(m)) => e.deep_view() == m,
                    _ => false,
                })
            }),
    {
        self.skip_whitespace();
        let ghost s = self.input@;
        let ghost i = self.position as int;
        if self.position >= self.input.len() {
            return Ok(Token::Eof);
        }
        let c = self.input[self.position];
        if c == '\n' {
            self.advance();
            return Ok(Token::Newline);
        }
        if c == '+' {
            self.advance();
            return Ok(Token::OperatorAdd);
        }
        if c == '-' {
            self.advance();
            return Ok(Token::OperatorSubtract);
        }
        if c == '*' {
            self.advance();
            return Ok(Token::OperatorMultiply);
        }
        if c == '/' {
            self.advance();
            return Ok(Token::OperatorDivide);
        }
        if c == '^' {
            self.advance();
            return Ok(Token::OperatorPower);
        }
        if c == '=' {
            self.advance();
            return Ok(Token::Equal);
        }
        if c == '<' {
            self.advance();
            if self.position < self.input.len() {
                let c2 = self.input[self.position];
                if c2 == '=' {
                    self.advance();
                    return Ok(Token::LessOrEqual);
                }
                if c2 == '>' {
                    self.advance();
                    return Ok(Token::NotEqual);
                }
            }
            return Ok(Token::LessThan);
        }
        if c == '>' {
            self.advance();
            if self.position < self.input.len() {
                let c2 = self.input[self.position];
                if c2 == '=' {
                    self.advance();
                    return Ok(Token::GreaterOrEqual);
                }
            }
            return Ok(Token::GreaterThan);
        }
        if c == ',' {
            self.advance();
            return Ok(Token::Comma);
        }
        if c == ';' {
            self.advance();
            return Ok(Token::Semicolon);
        }
        if c == '(' {
            self.advance();
            return Ok(Token::LeftParen);
        }
        if c == ')' {
            self.advance();
            return Ok(Token::RightParen);
        }
        if c == '"' {
            let content = self.read_string();
            return Ok(Token::StrLit(content));
        }
        if c == '.' {
            self.advance();
            let fs = self.position;
            self.scan_digits();
            let fe = self.position;
            proof {
                lemma_scan_digits_end_bounds(s, fs as int);
            }
            let mut whole = String::new();
            push_char(&mut whole, '0');
            let fe2 = trimmed_back_end(&self.input, fs, fe);
            let frac = copy_range(&self.input, fs, fe2);
            proof {
                assert(whole@ =~= seq!['0']);
            }
            return Ok(Token::Float { whole, frac });
        }
        if is_digit_char(c) {
            let ws = self.position;
            self.scan_digits();
            let we = self.position;
            proof {
                lemma_scan_digits_end_bounds(s, ws as int);
            }
            let mut isdot = false;
            if self.position < self.input.len() {
                if self.input[self.position] == '.' {
                    isdot = true;
                }
            }
            if isdot {
                self.advance();
                let fs = self.position;
                self.scan_digits();
                let fe = self.position;
                proof {
                    lemma_scan_digits_end_bounds(s, fs as int);
                }
                let wb = trimmed_front_start(&self.input, ws, we);
                let whole = copy_range(&self.input, wb, we);
                let fe2 = trimmed_back_end(&self.input, fs, fe);
                let frac = copy_range(&self.input, fs, fe2);
                return Ok(Token::Float { whole, frac });
            }
            proof {
                lemma_scan_digits_chars(s, ws as int);
            }
            let v = digits_value(&self.input, ws, we);
            return Ok(Token::Number(v));
        }
        if is_alpha_char(c) {
            let start = self.position;
            let word = self.read_identifier();
            let end = self.position;
            proof {
                lemma_scan_word_end_bounds(s, start as int);
            }
            let kw = match_keyword(&self.input, start, end);
            match kw {
                Some(tok) => {
                    match tok {
                        Token::Rem => {
                            self.skip_to_line_end();
                            return Ok(Token::Rem);
                        },
                        other => {
                            return Ok(other);
                        },
                    }
                },
                None => {
                    return Ok(Token::Identifier(word));
                },
            }
        }
        Err(LexError { position: self.position, ch: c })
    }

    /// Runs the scan to completion: the token sequence ends with the
    /// one end-of-input token, or the first lexical error is returned.
    pub fn tokenize(&mut self) -> (r: Result<Vec<Token>, LexError>)
        requires
            old(self).wf(),
        ensures
            final(self).wf(),
            final(self).input@ == old(self).input@,
            match r {
                Ok(v) => spec_tokenize_from(old(self).input@, old(self).position as int) == Ok::<
                    Seq<SpecToken>,
                    SpecLexError,
                >(v.deep_view()),
                Err(e) => spec_tokenize_from(old(self).input@, old(self).position as int) == Err::<
                    Seq<SpecToken>,
                    SpecLexError,
                >(e.deep_view()),
            },
    {
        let ghost s = self.input@;
        let ghost p0 = self.position as int;
        let mut tokens: Vec<Token> = Vec::new();
        loop
            invariant
                self.wf(),
                self.input@ == s,
                s == old(self).input@,
                p0 == old(self).position as int,
                0 <= p0 <= s.len(),
                spec_tokenize_from(s, p0) == (match spec_tokenize_from(s, self.position as int) {
                    Ok(rest) => Ok::<Seq<SpecToken>, SpecLexError>(tokens.deep_view() + rest),
                    Err(e) => Err::<Seq<SpecToken>, SpecLexError>(e),
                }),
            decreases s.len() - self.position,
        {
            let ghost pcur = self.position as int;
            let ghost dv0 = tokens.deep_view();
            proof {
                lemma_next_token_in_range(s, pcur);
            }
            let t = self.next_token();
            match t {
                Err(e) => {
                    return Err(e);
                },
                Ok(tok) => {
                    let is_eof = match &tok {
                        Token::Eof => true,
                        _ => false,
                    };
                    tokens.push(tok);
                    proof {
                        assert(tokens.deep_view() =~= dv0.push(tokens@[tokens@.len() - 1].deep_view()));
                    }
                    if is_eof {
                        proof {
                            assert(tokens.deep_view() =~= dv0 + seq![SpecToken::Eof]);
                        }
                        return Ok(tokens);
                    }
                    proof {
                        let (res, end) = spec_next_token(s, pcur);
                        assert(match spec_tokenize_from(s, end) {
                            Ok(rest) => spec_tokenize_from(s, pcur) == Ok::<
                                Seq<SpecToken>,
                                SpecLexError,
                            >(seq![tokens@[tokens@.len() - 1].deep_view()] + rest),
                            Err(e) => spec_tokenize_from(s, pcur) == Err::<
                                Seq<SpecToken>,
                                SpecLexError,
                            >(e),
                        });
                        assert forall|rest: Seq<SpecToken>|
                            true implies dv0 + (seq![tokens@[tokens@.len() - 1].deep_view()] + rest)
                            =~= tokens.deep_view() + rest by {}
                    }
                },
            }
        }
    }
}

/// The token sequence from `pos` to the end-of-input token, or the
/// first lexical error.
pub open spec fn spec_tokenize_from(s: Seq<char>, pos: int) -> Result<Seq<SpecToken>, SpecLexError>
    decreases s.len() - pos,
        when 0 <= pos <= s.len()
{
    let (r, end) = spec_next_token(s, pos);
    match r {
        Err(e) => Err(e),
        Ok(t) => if t == SpecToken::Eof {
            Ok(seq![SpecToken::Eof])
        } else if pos < end <= s.len() {
            match spec_tokenize_from(s, end) {
                Ok(rest) => Ok(seq![t] + rest),
                Err(e) => Err(e),
            }
        } else {
            // never reached: a token other than end-of-input advances
            // (lemma_next_token_in_range)
            Ok(seq![t])
        },
    }
}


/// The scan yields at most one token per character, plus the final
/// end-of-input token.
pub proof fn lemma_spec_tokenize_count(s: Seq<char>, pos: int)
    requires
        0 <= pos <= s.len(),
    ensures
        match spec_tokenize_from(s, pos) {
            Ok(ts) => ts.len() <= s.len() - pos + 1,
            Err(_) => true,
        },
    decreases s.len() - pos,
{
    lemma_next_token_in_range(s, pos);
    let (r, end) = spec_next_token(s, pos);
    match r {
        Ok(t) => {
            if t != SpecToken::Eof && pos < end <= s.len() {
                lemma_spec_tokenize_count(s, end);
            }
        },
        Err(_) => {},
    }
}


/// Keyword recognition ignores ASCII case: `let`, `LET` and `Let` all
/// read as the assignment keyword, while `Let1` matches no keyword
/// and so becomes an identifier token.
pub proof fn lemma_keyword_case_insensitive()
    ensures
        spec_keyword(seq!['l', 'e', 't']) == Some(SpecToken::Let),
        spec_keyword(seq!['L', 'E', 'T']) == Some(SpecToken::Let),
        spec_keyword(seq!['L', 'e', 't']) == Some(SpecToken::Let),
        spec_keyword(seq!['L', 'e', 't', '1']) is None,
{
    let lower = seq!['l', 'e', 't'];
    let upper = seq!['L', 'E', 'T'];
    let mixed = seq!['L', 'e', 't'];
    let word = seq!['L', 'e', 't', '1'];
    // The three spellings are no three-letter keyword but LET ...
    if kw_is(lower, seq!['E', 'N', 'D']) {
        assert(kw_char(lower[0], seq!['E', 'N', 'D'][0]));
    }
    if kw_is(lower, seq!['F', 'O', 'R']) {
        assert(kw_char(lower[0], seq!['F', 'O', 'R'][0]));
    }
    if kw_is(lower, seq!['R', 'E', 'M']) {
        assert(kw_char(lower[0], seq!['R', 'E', 'M'][0]));
    }
    if kw_is(upper, seq!['E', 'N', 'D']) {
        assert(kw_char(upper[0], seq!['E', 'N', 'D'][0]));
    }
    if kw_is(upper, seq!['F', 'O', 'R']) {
        assert(kw_char(upper[0], seq!['F', 'O', 'R'][0]));
    }
    if kw_is(upper, seq!['R', 'E', 'M']) {
        assert(kw_char(upper[0], seq!['R', 'E', 'M'][0]));
    }
    if kw_is(mixed, seq!['E', 'N', 'D']) {
        assert(kw_char(mixed[0], seq!['E', 'N', 'D'][0]));
    }
    if kw_is(mixed, seq!['F', 'O', 'R']) {
        assert(kw_char(mixed[0], seq!['F', 'O', 'R'][0]));
    }
    if kw_is(mixed, seq!['R', 'E', 'M']) {
        assert(kw_char(mixed[0], seq!['R', 'E', 'M'][0]));
    }
    // ... and each is LET, character by character.
    let kwlet = seq!['L', 'E', 'T'];
    assert forall|k: int| 0 <= k < lower.len() implies #[trigger] kw_char(lower[k], kwlet[k]) by {}
    assert forall|k: int| 0 <= k < upper.len() implies #[trigger] kw_char(upper[k], kwlet[k]) by {}
    assert forall|k: int| 0 <= k < mixed.len() implies #[trigger] kw_char(mixed[k], kwlet[k]) by {}
    assert(kw_is(lower, kwlet));
    assert(kw_is(upper, kwlet));
    assert(kw_is(mixed, kwlet));
    // `Let1` is four characters, so only the four-letter keywords
    // could match, and its first character rules each of them out.
    if kw_is(word, seq!['E', 'L', 'S', 'E']) {
        assert(kw_char(word[0], seq!['E', 'L', 'S', 'E'][0]));
    }
    if kw_is(word, seq!['G', 'O', 'T', 'O']) {
        assert(kw_char(word[0], seq!['G', 'O', 'T', 'O'][0]));
    }
    if kw_is(word, seq!['N', 'E', 'X', 'T']) {
        assert(kw_char(word[0], seq!['N', 'E', 'X', 'T'][0]));
    }
    if kw_is(word, seq!['S', 'T', 'E', 'P']) {
        assert(kw_char(word[0], seq!['S', 'T', 'E', 'P'][0]));
    }
    if kw_is(word, seq!['T', 'H', 'E', 'N']) {
        assert(kw_char(word[0], seq!['T', 'H', 'E', 'N'][0]));
    }
}

} // verus!
