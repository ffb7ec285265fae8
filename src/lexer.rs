//! The lexer: one left-to-right pass over the source characters, producing
//! tokens tagged with the 1-based line on which each begins.
use vstd::prelude::*;
use vstd::string::*;
use crate::text::{
    alphabetic, alphanumeric, numeric, decimal, is_alphabetic, is_alphanumeric, is_numeric,
    push_char, chars_of, push_decimal,
};

verus! {

/// One lexical unit with its line. Numbers keep the literal text that the
/// float grammar accepted.
#[derive(Debug, PartialEq)]
pub enum Token {
    Str(String, usize),
    Number(String, usize),
    LeftBracket(usize),
    RightBracket(usize),
    LeftBrace(usize),
    RightBrace(usize),
    Comma(usize),
    Colon(usize),
    Bool(bool, usize),
    Null(usize),
    EOF(usize),
}

/// The mathematical form of a token: text as a character sequence.
pub enum TokenModel {
    Str(Seq<char>, nat),
    Number(Seq<char>, nat),
    LeftBracket(nat),
    RightBracket(nat),
    LeftBrace(nat),
    RightBrace(nat),
    Comma(nat),
    Colon(nat),
    Bool(bool, nat),
    Null(nat),
    EOF(nat),
}

/// What went wrong while lexing, and on which line.
pub enum LexFault {
    UnterminatedString(nat),
    UnknownSymbol(char, nat),
    UnknownLiteral(Seq<char>, nat),
    InvalidNumber(Seq<char>, nat),
}

/// A lexing error with its human-readable message.
#[derive(Debug)]
pub enum LexError {
    UnterminatedString(String),
    UnknownSymbol(String),
    UnknownLiteral(String),
    InvalidNumber(String),
}

pub struct Lexer {
    pub tokens: Vec<Token>,
    pub source: Vec<char>,
}

impl Token {
    pub open spec fn model(&self) -> TokenModel {
        match self {
            Token::Str(s, l) => TokenModel::Str(s@, *l as nat),
            Token::Number(s, l) => TokenModel::Number(s@, *l as nat),
            Token::LeftBracket(l) => TokenModel::LeftBracket(*l as nat),
            Token::RightBracket(l) => TokenModel::RightBracket(*l as nat),
            Token::LeftBrace(l) => TokenModel::LeftBrace(*l as nat),
            Token::RightBrace(l) => TokenModel::RightBrace(*l as nat),
            Token::Comma(l) => TokenModel::Comma(*l as nat),
            Token::Colon(l) => TokenModel::Colon(*l as nat),
            Token::Bool(b, l) => TokenModel::Bool(*b, *l as nat),
            Token::Null(l) => TokenModel::Null(*l as nat),
            Token::EOF(l) => TokenModel::EOF(*l as nat),
        }
    }

    /// The display form of a token: its text in quotes and its line.
    pub fn describe(&self) -> (r: String)
        ensures
            r@ == describe_token(self.model()),
    {
        let mut m = String::new();
        let line: usize;
        match self {
            Token::Str(s, l) => { m.append("'"); m.append(s.as_str()); line = *l; }
            Token::Number(s, l) => { m.append("'"); m.append(s.as_str()); line = *l; }
            Token::LeftBracket(l) => { m.append("'["); line = *l; }
            Token::RightBracket(l) => { m.append("']"); line = *l; }
            Token::LeftBrace(l) => { m.append("'{"); line = *l; }
            Token::RightBrace(l) => { m.append("'}"); line = *l; }
            Token::Comma(l) => { m.append("',"); line = *l; }
            Token::Colon(l) => { m.append("':"); line = *l; }
            Token::Bool(b, l) => {
                if *b { m.append("'true"); } else { m.append("'false"); }
                line = *l;
            }
            Token::Null(l) => { m.append("'null"); line = *l; }
            Token::EOF(l) => { m.append("'EOF"); line = *l; }
        }
        m.append("' at line: ");
        push_decimal(&mut m, line);
        m
    }
}

/// The text in front of a token's line in its display form.
pub open spec fn token_head(t: TokenModel) -> Seq<char> {
    match t {
        TokenModel::Str(s, _) => "'"@ + s,
        TokenModel::Number(s, _) => "'"@ + s,
        TokenModel::LeftBracket(_) => "'["@,
        TokenModel::RightBracket(_) => "']"@,
        TokenModel::LeftBrace(_) => "'{"@,
        TokenModel::RightBrace(_) => "'}"@,
        TokenModel::Comma(_) => "',"@,
        TokenModel::Colon(_) => "':"@,
        TokenModel::Bool(b, _) => if b { "'true"@ } else { "'false"@ },
        TokenModel::Null(_) => "'null"@,
        TokenModel::EOF(_) => "'EOF"@,
    }
}

pub open spec fn token_line(t: TokenModel) -> nat {
    match t {
        TokenModel::Str(_, l) => l,
        TokenModel::Number(_, l) => l,
        TokenModel::LeftBracket(l) => l,
        TokenModel::RightBracket(l) => l,
        TokenModel::LeftBrace(l) => l,
        TokenModel::RightBrace(l) => l,
        TokenModel::Comma(l) => l,
        TokenModel::Colon(l) => l,
        TokenModel::Bool(_, l) => l,
        TokenModel::Null(l) => l,
        TokenModel::EOF(l) => l,
    }
}

/// `'<text>' at line: <line>`
pub open spec fn describe_token(t: TokenModel) -> Seq<char> {
    token_head(t) + "' at line: "@ + decimal(token_line(t))
}

pub open spec fn fault_line(f: LexFault) -> nat {
    match f {
        LexFault::UnterminatedString(l) => l,
        LexFault::UnknownSymbol(_, l) => l,
        LexFault::UnknownLiteral(_, l) => l,
        LexFault::InvalidNumber(_, l) => l,
    }
}

/// The message a lexing error carries.
pub open spec fn fault_message(f: LexFault) -> Seq<char> {
    match f {
        LexFault::UnterminatedString(l) => "Unterminated string"@ + " at line: "@ + decimal(l),
        LexFault::UnknownSymbol(c, l) => "Unknown symbol "@ + seq![c] + " at line: "@ + decimal(l),
        LexFault::UnknownLiteral(w, l) => "Unknown literal '"@ + w + "'"@ + " at line: "@ + decimal(
            l,
        ),
        LexFault::InvalidNumber(w, l) => "Invalid number "@ + w + " at line: "@ + decimal(l),
    }
}

impl LexError {
    /// Whether this error is the fault `f`, with `f`'s message.
    pub open spec fn is_fault(&self, f: LexFault) -> bool {
        match (self, f) {
            (LexError::UnterminatedString(m), LexFault::UnterminatedString(_)) => m@ == fault_message(f),
            (LexError::UnknownSymbol(m), LexFault::UnknownSymbol(_, _)) => m@ == fault_message(f),
            (LexError::UnknownLiteral(m), LexFault::UnknownLiteral(_, _)) => m@ == fault_message(f),
            (LexError::InvalidNumber(m), LexFault::InvalidNumber(_, _)) => m@ == fault_message(f),
            _ => false,
        }
    }
}

pub open spec fn is_ascii_digit(c: char) -> bool {
    '0' <= c <= '9'
}

/// The first position at or after `j` that does not hold an ASCII digit.
pub open spec fn digits_end(w: Seq<char>, j: int) -> int
    decreases w.len() - j,
{
    if 0 <= j < w.len() && is_ascii_digit(w[j]) {
        digits_end(w, j + 1)
    } else {
        j
    }
}

pub open spec fn sign_len(w: Seq<char>, j: int) -> int {
    if 0 <= j < w.len() && (w[j] == '+' || w[j] == '-') { 1 } else { 0 }
}

/// Decimal float text: `[+-]? (D+ | D+ '.' D* | D* '.' D+) ([eE] [+-]? D+)?`
/// with ASCII digits `D`, the grammar of the standard library's float parser
/// on text without letters other than `e` and `E`.
pub open spec fn float_text(w: Seq<char>) -> bool {
    let a = sign_len(w, 0);
    let b = digits_end(w, a);
    let c = if b < w.len() && w[b] == '.' { b + 1 } else { b };
    let d = digits_end(w, c);
    let mantissa = b > a || d > c;
    if d == w.len() {
        mantissa
    } else if w[d] == 'e' || w[d] == 'E' {
        let f = d + 1 + sign_len(w, d + 1);
        let g = digits_end(w, f);
        mantissa && g > f && g == w.len()
    } else {
        false
    }
}

/// The character that the escape `\c` stands for.
pub open spec fn unescape(c: char) -> char {
    if c == 'n' { '\n' } else if c == 't' { '\t' } else if c == 'r' { '\r' } else { c }
}

pub open spec fn line_after(line: nat, c: char) -> nat {
    if c == '\n' { line + 1 } else { line }
}

/// Scans a string body from `j` (just past the opening quote, or inside the
/// body with `text` read so far and the line reached): the decoded text, the
/// position of the closing quote and the line there; `None` when the input
/// ends first.
pub open spec fn scan_string(s: Seq<char>, j: int, text: Seq<char>, line: nat) -> Option<(Seq<char>, int, nat)>
    decreases s.len() - j,
{
    if !(0 <= j < s.len()) {
        None
    } else if s[j] == '"' {
        Some((text, j, line))
    } else if s[j] == '\\' {
        if j + 1 < s.len() {
            scan_string(s, j + 2, text.push(unescape(s[j + 1])), line_after(line, s[j + 1]))
        } else {
            None
        }
    } else {
        scan_string(s, j + 1, text.push(s[j]), line_after(line, s[j]))
    }
}

pub open spec fn word_char(c: char) -> bool {
    alphanumeric(c) || c == '_'
}

pub open spec fn number_char(c: char) -> bool {
    numeric(c) || c == '.' || c == 'e' || c == 'E' || c == '+' || c == '-'
}

/// End of the run of keyword characters from `j`.
pub open spec fn word_end(s: Seq<char>, j: int) -> int
    decreases s.len() - j,
{
    if 0 <= j < s.len() && word_char(s[j]) { word_end(s, j + 1) } else { j }
}

/// End of the run of number characters from `j`.
pub open spec fn number_end(s: Seq<char>, j: int) -> int
    decreases s.len() - j,
{
    if 0 <= j < s.len() && number_char(s[j]) { number_end(s, j + 1) } else { j }
}

proof fn lemma_scan_string(s: Seq<char>, j: int, text: Seq<char>, line: nat)
    ensures
        scan_string(s, j, text, line) matches Some(r) ==> (j <= r.1 < s.len() && line <= r.2 <= line + (r.1 - j)),
    decreases s.len() - j,
{
    if 0 <= j < s.len() && s[j] != '"' {
        if s[j] == '\\' {
            if j + 1 < s.len() {
                lemma_scan_string(s, j + 2, text.push(unescape(s[j + 1])), line_after(line, s[j + 1]));
            }
        } else {
            lemma_scan_string(s, j + 1, text.push(s[j]), line_after(line, s[j]));
        }
    }
}

proof fn lemma_word_end(s: Seq<char>, j: int)
    ensures
        j <= word_end(s, j),
        0 <= j <= s.len() ==> word_end(s, j) <= s.len(),
    decreases s.len() - j,
{
    if 0 <= j < s.len() && word_char(s[j]) {
        lemma_word_end(s, j + 1);
    }
}

proof fn lemma_number_end(s: Seq<char>, j: int)
    ensures
        j <= number_end(s, j),
        0 <= j <= s.len() ==> number_end(s, j) <= s.len(),
    decreases s.len() - j,
{
    if 0 <= j < s.len() && number_char(s[j]) {
        lemma_number_end(s, j + 1);
    }
}

pub open spec fn structural(c: char) -> bool {
    c == '[' || c == ']' || c == '{' || c == '}' || c == ':' || c == ','
}

pub open spec fn structural_token(c: char, line: nat) -> TokenModel {
    if c == '[' {
        TokenModel::LeftBracket(line)
    } else if c == ']' {
        TokenModel::RightBracket(line)
    } else if c == '{' {
        TokenModel::LeftBrace(line)
    } else if c == '}' {
        TokenModel::RightBrace(line)
    } else if c == ':' {
        TokenModel::Colon(line)
    } else {
        TokenModel::Comma(line)
    }
}

/// Lexes `s` from position `i` on line `line`, after the tokens `acc`.
pub open spec fn lex_from(s: Seq<char>, i: int, line: nat, acc: Seq<TokenModel>) -> Result<Seq<TokenModel>, LexFault>
    decreases s.len() - i
    via lex_from_decreases
{
    if !(0 <= i < s.len()) {
        Ok(acc.push(TokenModel::EOF(line)))
    } else {
        let c = s[i];
        if structural(c) {
            lex_from(s, i + 1, line, acc.push(structural_token(c, line)))
        } else if c == '"' {
            match scan_string(s, i + 1, Seq::empty(), line) {
                None => Err(LexFault::UnterminatedString(line)),
                Some(r) => lex_from(s, r.1 + 1, r.2, acc.push(TokenModel::Str(r.0, line))),
            }
        } else if c == ' ' || c == '\r' || c == '\t' {
            lex_from(s, i + 1, line, acc)
        } else if c == '\n' {
            lex_from(s, i + 1, line + 1, acc)
        } else if alphabetic(c) {
            let e = word_end(s, i + 1);
            let w = s.subrange(i, e);
            if w == seq!['t', 'r', 'u', 'e'] {
                lex_from(s, e, line, acc.push(TokenModel::Bool(true, line)))
            } else if w == seq!['f', 'a', 'l', 's', 'e'] {
                lex_from(s, e, line, acc.push(TokenModel::Bool(false, line)))
            } else if w == seq!['n', 'u', 'l', 'l'] {
                lex_from(s, e, line, acc.push(TokenModel::Null(line)))
            } else {
                Err(LexFault::UnknownLiteral(w, line))
            }
        } else if numeric(c) || c == '+' || c == '-' {
            let e = number_end(s, i + 1);
            let w = s.subrange(i, e);
            if float_text(w) {
                lex_from(s, e, line, acc.push(TokenModel::Number(w, line)))
            } else {
                Err(LexFault::InvalidNumber(w, line))
            }
        } else {
            Err(LexFault::UnknownSymbol(c, line))
        }
    }
}

#[via_fn]
proof fn lex_from_decreases(s: Seq<char>, i: int, line: nat, acc: Seq<TokenModel>) {
    lemma_scan_string(s, i + 1, Seq::empty(), line);
    lemma_word_end(s, i + 1);
    lemma_number_end(s, i + 1);
}

/// The tokens of `s`, or the first fault met in it.
pub open spec fn lex_spec(s: Seq<char>) -> Result<Seq<TokenModel>, LexFault> {
    lex_from(s, 0, 1, Seq::empty())
}

pub open spec fn models(ts: Seq<Token>) -> Seq<TokenModel> {
    ts.map_values(|t: Token| t.model())
}

fn unescape_char(c: char) -> (r: char)
    ensures
        r == unescape(c),
{
    if c == 'n' { '\n' } else if c == 't' { '\t' } else if c == 'r' { '\r' } else { c }
}

/// Reads a string body from `j0`, just past its opening quote.
fn scan_string_body(s: &Vec<char>, j0: usize, line0: usize) -> (r: Option<(String, usize, usize)>)
    requires
        j0 <= s.len(),
        line0 + (s.len() - j0) <= usize::MAX,
    ensures
        match scan_string(s@, j0 as int, Seq::empty(), line0 as nat) {
            None => r is None,
            Some(m) => r matches Some(x) && x.0@ == m.0 && x.1 as int == m.1 && x.2 as nat == m.2,
        },
{
    let mut text = String::new();
    let mut j: usize = j0;
    let mut line: usize = line0;
    while j < s.len()
        invariant
            j0 <= j <= s.len(),
            line <= line0 + (j - j0),
            line0 + (s.len() - j0) <= usize::MAX,
            scan_string(s@, j as int, text@, line as nat) == scan_string(s@, j0 as int, Seq::empty(), line0 as nat),
        decreases s.len() - j,
    {
        let c = s[j];
        if c == '"' {
            return Some((text, j, line));
        } else if c == '\\' {
            if j + 1 < s.len() {
                let d = s[j + 1];
                push_char(&mut text, unescape_char(d));
                if d == '\n' {
                    line = line + 1;
                }
                j = j + 2;
            } else {
                return None;
            }
        } else {
            push_char(&mut text, c);
            if c == '\n' {
                line = line + 1;
            }
            j = j + 1;
        }
    }
    None
}

fn word_end_at(s: &Vec<char>, j0: usize) -> (e: usize)
    requires
        j0 <= s.len(),
    ensures
        e as int == word_end(s@, j0 as int),
        j0 <= e <= s.len(),
{
    let mut j = j0;
    while j < s.len() && (is_alphanumeric(s[j]) || s[j] == '_')
        invariant
            j0 <= j <= s.len(),
            word_end(s@, j as int) == word_end(s@, j0 as int),
        decreases s.len() - j,
    {
        j = j + 1;
    }
    j
}

fn number_end_at(s: &Vec<char>, j0: usize) -> (e: usize)
    requires
        j0 <= s.len(),
    ensures
        e as int == number_end(s@, j0 as int),
        j0 <= e <= s.len(),
{
    let mut j = j0;
    while j < s.len() && (is_numeric(s[j]) || s[j] == '.' || s[j] == 'e' || s[j] == 'E' || s[j] == '+'
        || s[j] == '-')
        invariant
            j0 <= j <= s.len(),
            number_end(s@, j as int) == number_end(s@, j0 as int),
        decreases s.len() - j,
    {
        j = j + 1;
    }
    j
}

/// The characters `s[a..b]` as a `String`.
fn run_text(s: &Vec<char>, a: usize, b: usize) -> (r: String)
    requires
        a <= b <= s.len(),
    ensures
        r@ == s@.subrange(a as int, b as int),
{
    let mut r = String::new();
    let mut j = a;
    while j < b
        invariant
            a <= j <= b <= s.len(),
            r@ == s@.subrange(a as int, j as int),
        decreases b - j,
    {
        push_char(&mut r, s[j]);
        assert(r@ =~= s@.subrange(a as int, j + 1));
        j = j + 1;
    }
    r
}

/// The characters `s[a..b]` as a vector.
fn run_chars(s: &Vec<char>, a: usize, b: usize) -> (r: Vec<char>)
    requires
        a <= b <= s.len(),
    ensures
        r@ == s@.subrange(a as int, b as int),
{
    let mut r: Vec<char> = Vec::new();
    let mut j = a;
    while j < b
        invariant
            a <= j <= b <= s.len(),
            r@ == s@.subrange(a as int, j as int),
        decreases b - j,
    {
        r.push(s[j]);
        assert(r@ =~= s@.subrange(a as int, j + 1));
        j = j + 1;
    }
    r
}

/// Whether `s[a..b]` spells `w`.
fn run_is(s: &Vec<char>, a: usize, b: usize, w: &Vec<char>) -> (r: bool)
    requires
        a <= b <= s.len(),
    ensures
        r == (s@.subrange(a as int, b as int) == w@),
{
    if b - a != w.len() {
        assert(s@.subrange(a as int, b as int).len() != w@.len());
        return false;
    }
    let mut k: usize = 0;
    while k < w.len()
        invariant
            a <= b <= s.len(),
            b - a == w.len(),
            k <= w.len(),
            forall|m: int| 0 <= m < k ==> s@[a + m] == w@[m],
        decreases w.len() - k,
    {
        if s[a + k] != w[k] {
            assert(s@.subrange(a as int, b as int)[k as int] != w@[k as int]);
            return false;
        }
        k = k + 1;
    }
    assert(s@.subrange(a as int, b as int) =~= w@);
    true
}

fn digits_end_at(w: &Vec<char>, j0: usize) -> (e: usize)
    requires
        j0 <= w.len(),
    ensures
        e as int == digits_end(w@, j0 as int),
        j0 <= e <= w.len(),
{
    let mut j = j0;
    while j < w.len() && '0' <= w[j] && w[j] <= '9'
        invariant
            j0 <= j <= w.len(),
            digits_end(w@, j as int) == digits_end(w@, j0 as int),
        decreases w.len() - j,
    {
        j = j + 1;
    }
    j
}

fn sign_at(w: &Vec<char>, j: usize) -> (r: usize)
    ensures
        r as int == sign_len(w@, j as int),
{
    if j < w.len() && (w[j] == '+' || w[j] == '-') { 1 } else { 0 }
}

/// Whether `w` is decimal float text (see `float_text`).
pub fn is_float_text(w: &Vec<char>) -> (r: bool)
    ensures
        r == float_text(w@),
{
    let a = sign_at(w, 0);
    let b = digits_end_at(w, a);
    let c = if b < w.len() && w[b] == '.' { b + 1 } else { b };
    let d = digits_end_at(w, c);
    let mantissa = b > a || d > c;
    if d == w.len() {
        mantissa
    } else if w[d] == 'e' || w[d] == 'E' {
        let f = d + 1 + sign_at(w, d + 1);
        let g = digits_end_at(w, f);
        mantissa && g > f && g == w.len()
    } else {
        false
    }
}

fn at_line(m: &mut String, line: usize)
    ensures
        final(m)@ == old(m)@ + " at line: "@ + decimal(line as nat),
{
    m.append(" at line: ");
    push_decimal(m, line);
}

impl Lexer {
    pub open spec fn source(&self) -> Seq<char> {
        self.source@
    }

    /// A lexer over `source`, with no tokens yet.
    pub fn new(source: &str) -> (r: Lexer)
        ensures
            r.source() == source@,
            r.tokens@.len() == 0,
    {
        Lexer { tokens: Vec::new(), source: chars_of(source) }
    }

    /// Lexes the whole source. On success the tokens are appended to
    /// `tokens`, ending with one `EOF`; on the first fault nothing is
    /// appended and the fault is returned.
    pub fn lex(&mut self) -> (r: Result<(), LexError>)
        requires
            old(self).source().len() < usize::MAX,
        ensures
            final(self).source() == old(self).source(),
            match lex_spec(old(self).source()) {
                Ok(ts) => r is Ok && models(final(self).tokens@) == models(old(self).tokens@) + ts,
                Err(f) => r matches Err(e) && e.is_fault(f) && final(self).tokens@ == old(self).tokens@,
            },
    {
        let s = &self.source;
        let mut toks: Vec<Token> = Vec::new();
        let mut i: usize = 0;
        let mut line: usize = 1;
        assert(models(toks@) =~= Seq::empty());
        while i < s.len()
            invariant
                s@ == old(self).source(),
                i <= s.len() < usize::MAX,
                1 <= line <= i + 1,
                lex_from(s@, i as int, line as nat, models(toks@)) == lex_spec(s@),
            decreases s.len() - i,
        {
            let c = s[i];
            let ghost before = models(toks@);
            if c == '[' || c == ']' || c == '{' || c == '}' || c == ':' || c == ',' {
                let t = if c == '[' {
                    Token::LeftBracket(line)
                } else if c == ']' {
                    Token::RightBracket(line)
                } else if c == '{' {
                    Token::LeftBrace(line)
                } else if c == '}' {
                    Token::RightBrace(line)
                } else if c == ':' {
                    Token::Colon(line)
                } else {
                    Token::Comma(line)
                };
                toks.push(t);
                assert(models(toks@) =~= before.push(structural_token(c, line as nat)));
                i = i + 1;
            } else if c == '"' {
                match scan_string_body(s, i + 1, line) {
                    None => {
                        let mut m = String::new();
                        m.append("Unterminated string");
                        at_line(&mut m, line);
                        return Err(LexError::UnterminatedString(m));
                    }
                    Some((text, e, l2)) => {
                        proof { lemma_scan_string(s@, i + 1, Seq::empty(), line as nat); }
                        assert(l2 <= line + (e - (i + 1)));
                        toks.push(Token::Str(text, line));
                        assert(models(toks@) =~= before.push(TokenModel::Str(text@, line as nat)));
                        i = e + 1;
                        line = l2;
                    }
                }
            } else if c == ' ' || c == '\r' || c == '\t' {
                i = i + 1;
            } else if c == '\n' {
                i = i + 1;
                line = line + 1;
            } else if is_alphabetic(c) {
                let e = word_end_at(s, i + 1);
                if run_is(s, i, e, &vec!['t', 'r', 'u', 'e']) {
                    toks.push(Token::Bool(true, line));
                    assert(models(toks@) =~= before.push(TokenModel::Bool(true, line as nat)));
                } else if run_is(s, i, e, &vec!['f', 'a', 'l', 's', 'e']) {
                    toks.push(Token::Bool(false, line));
                    assert(models(toks@) =~= before.push(TokenModel::Bool(false, line as nat)));
                } else if run_is(s, i, e, &vec!['n', 'u', 'l', 'l']) {
                    toks.push(Token::Null(line));
                    assert(models(toks@) =~= before.push(TokenModel::Null(line as nat)));
                } else {
                    let mut m = String::new();
                    m.append("Unknown literal '");
                    let w = run_text(s, i, e);
                    m.append(w.as_str());
                    m.append("'");
                    at_line(&mut m, line);
                    assert(m@ =~= fault_message(LexFault::UnknownLiteral(s@.subrange(i as int, e as int), line as nat)));
                    return Err(LexError::UnknownLiteral(m));
                }
                i = e;
            } else if is_numeric(c) || c == '+' || c == '-' {
                let e = number_end_at(s, i + 1);
                let w = run_text(s, i, e);
                if is_float_text(&run_chars(s, i, e)) {
                    toks.push(Token::Number(w, line));
                    assert(models(toks@) =~= before.push(TokenModel::Number(s@.subrange(i as int, e as int), line as nat)));
                    i = e;
                } else {
                    let mut m = String::new();
                    m.append("Invalid number ");
                    m.append(w.as_str());
                    at_line(&mut m, line);
                    assert(m@ =~= fault_message(LexFault::InvalidNumber(s@.subrange(i as int, e as int), line as nat)));
                    return Err(LexError::InvalidNumber(m));
                }
            } else {
                let mut m = String::new();
                m.append("Unknown symbol ");
                push_char(&mut m, c);
                at_line(&mut m, line);
                assert(m@ =~= fault_message(LexFault::UnknownSymbol(c, line as nat)));
                return Err(LexError::UnknownSymbol(m));
            }
        }
        let ghost before = models(toks@);
        toks.push(Token::EOF(line));
        assert(models(toks@) =~= before.push(TokenModel::EOF(line as nat)));
        let ghost old_models = models(self.tokens@);
        let ghost new_models = models(toks@);
        self.tokens.append(&mut toks);
        assert(models(self.tokens@) =~= old_models + new_models);
        Ok(())
    }
}

/// No token of `ts` is `EOF`.
pub open spec fn eof_free(ts: Seq<TokenModel>) -> bool {
    forall|k: int| 0 <= k < ts.len() ==> !(#[trigger] ts[k] is EOF)
}

proof fn lemma_push_eof_free(acc: Seq<TokenModel>, t: TokenModel)
    requires
        eof_free(acc),
        !(t is EOF),
    ensures
        eof_free(acc.push(t)),
{
    assert forall|k: int| 0 <= k < acc.push(t).len() implies !(#[trigger] acc.push(t)[k] is EOF) by {
        if k < acc.len() {
            assert(acc.push(t)[k] == acc[k]);
        }
    }
}

proof fn lemma_lex_from_eof(s: Seq<char>, i: int, line: nat, acc: Seq<TokenModel>)
    requires
        eof_free(acc),
    ensures
        lex_from(s, i, line, acc) matches Ok(ts) ==> ts.len() > 0 && ts.last() is EOF && eof_free(
            ts.drop_last(),
        ),
    decreases s.len() - i,
{
    if !(0 <= i < s.len()) {
        assert(acc.push(TokenModel::EOF(line)).drop_last() =~= acc);
    } else {
        let c = s[i];
        if structural(c) {
            lemma_push_eof_free(acc, structural_token(c, line));
            lemma_lex_from_eof(s, i + 1, line, acc.push(structural_token(c, line)));
        } else if c == '"' {
            lemma_scan_string(s, i + 1, Seq::empty(), line);
            if let Some(r) = scan_string(s, i + 1, Seq::empty(), line) {
                lemma_push_eof_free(acc, TokenModel::Str(r.0, line));
                lemma_lex_from_eof(s, r.1 + 1, r.2, acc.push(TokenModel::Str(r.0, line)));
            }
        } else if c == ' ' || c == '\r' || c == '\t' {
            lemma_lex_from_eof(s, i + 1, line, acc);
        } else if c == '\n' {
            lemma_lex_from_eof(s, i + 1, line + 1, acc);
        } else if alphabetic(c) {
            lemma_word_end(s, i + 1);
            let e = word_end(s, i + 1);
            lemma_push_eof_free(acc, TokenModel::Bool(true, line));
            lemma_push_eof_free(acc, TokenModel::Bool(false, line));
            lemma_push_eof_free(acc, TokenModel::Null(line));
            lemma_lex_from_eof(s, e, line, acc.push(TokenModel::Bool(true, line)));
            lemma_lex_from_eof(s, e, line, acc.push(TokenModel::Bool(false, line)));
            lemma_lex_from_eof(s, e, line, acc.push(TokenModel::Null(line)));
        } else if numeric(c) || c == '+' || c == '-' {
            lemma_number_end(s, i + 1);
            let e = number_end(s, i + 1);
            let w = s.subrange(i, e);
            lemma_push_eof_free(acc, TokenModel::Number(w, line));
            lemma_lex_from_eof(s, e, line, acc.push(TokenModel::Number(w, line)));
        }
    }
}

/// Whatever the input, the lexer's tokens end with exactly one `EOF`: the
/// token sequence that the parser takes.
pub proof fn lemma_lex_ends_with_one_eof(s: Seq<char>)
    ensures
        lex_spec(s) matches Ok(ts) ==> ts.len() > 0 && ts.last() is EOF && eof_free(ts.drop_last()),
{
    lemma_lex_from_eof(s, 0, 1, Seq::empty());
}

/// Lines never decrease along `ts`, start at 1 or later, and none is past
/// `line`.
pub open spec fn lines_ordered(ts: Seq<TokenModel>, line: nat) -> bool {
    &&& forall|a: int, b: int|
        0 <= a < b < ts.len() ==> token_line(#[trigger] ts[a]) <= token_line(#[trigger] ts[b])
    &&& forall|a: int| 0 <= a < ts.len() ==> 1 <= token_line(#[trigger] ts[a]) <= line
}

proof fn lemma_push_ordered(acc: Seq<TokenModel>, line: nat, t: TokenModel, next: nat)
    requires
        lines_ordered(acc, line),
        token_line(t) == line,
        1 <= line <= next,
    ensures
        lines_ordered(acc.push(t), next),
{
    let e = acc.push(t);
    assert forall|a: int, b: int| 0 <= a < b < e.len() implies token_line(#[trigger] e[a]) <= token_line(
        #[trigger] e[b],
    ) by {
        if b < acc.len() {
            assert(e[a] == acc[a] && e[b] == acc[b]);
        } else {
            assert(e[a] == acc[a]);
        }
    }
    assert forall|a: int| 0 <= a < e.len() implies 1 <= token_line(#[trigger] e[a]) <= next by {
        if a < acc.len() {
            assert(e[a] == acc[a]);
        }
    }
}

proof fn lemma_lex_from_lines(s: Seq<char>, i: int, line: nat, acc: Seq<TokenModel>)
    requires
        lines_ordered(acc, line),
        1 <= line,
    ensures
        lex_from(s, i, line, acc) matches Ok(ts) ==> lines_ordered(ts, token_line(ts.last())),
    decreases s.len() - i,
{
    if !(0 <= i < s.len()) {
        lemma_push_ordered(acc, line, TokenModel::EOF(line), line);
    } else {
        let c = s[i];
        if structural(c) {
            lemma_push_ordered(acc, line, structural_token(c, line), line);
            lemma_lex_from_lines(s, i + 1, line, acc.push(structural_token(c, line)));
        } else if c == '"' {
            lemma_scan_string(s, i + 1, Seq::empty(), line);
            if let Some(r) = scan_string(s, i + 1, Seq::empty(), line) {
                lemma_push_ordered(acc, line, TokenModel::Str(r.0, line), r.2);
                lemma_lex_from_lines(s, r.1 + 1, r.2, acc.push(TokenModel::Str(r.0, line)));
            }
        } else if c == ' ' || c == '\r' || c == '\t' {
            lemma_lex_from_lines(s, i + 1, line, acc);
        } else if c == '\n' {
            lemma_lex_from_lines(s, i + 1, line + 1, acc);
        } else if alphabetic(c) {
            lemma_word_end(s, i + 1);
            let e = word_end(s, i + 1);
            lemma_push_ordered(acc, line, TokenModel::Bool(true, line), line);
            lemma_push_ordered(acc, line, TokenModel::Bool(false, line), line);
            lemma_push_ordered(acc, line, TokenModel::Null(line), line);
            lemma_lex_from_lines(s, e, line, acc.push(TokenModel::Bool(true, line)));
            lemma_lex_from_lines(s, e, line, acc.push(TokenModel::Bool(false, line)));
            lemma_lex_from_lines(s, e, line, acc.push(TokenModel::Null(line)));
        } else if numeric(c) || c == '+' || c == '-' {
            lemma_number_end(s, i + 1);
            let e = number_end(s, i + 1);
            let w = s.subrange(i, e);
            lemma_push_ordered(acc, line, TokenModel::Number(w, line), line);
            lemma_lex_from_lines(s, e, line, acc.push(TokenModel::Number(w, line)));
        }
    }
}

/// Token lines start at 1 and never decrease along the lexer's output.
pub proof fn lemma_lex_lines_ordered(s: Seq<char>)
    ensures
        lex_spec(s) matches Ok(ts) ==> forall|a: int, b: int|
            0 <= a < b < ts.len() ==> 1 <= token_line(#[trigger] ts[a]) <= token_line(#[trigger] ts[b]),
{
    lemma_lex_from_lines(s, 0, 1, Seq::empty());
}

} // verus!
