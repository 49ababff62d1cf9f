//! The lexical layer: where the lexemes of a text start and end.

use vstd::prelude::*;
use vstd::string::StringSliceAdditionalSpecFns;

verus! {

/// What a lexeme is.
#[derive(Clone, Copy, Debug, PartialEq, Eq, Structural)]
pub enum LexKind {
    Number,
    Name,
    Plus,
    Minus,
    Star,
    Slash,
    Percent,
    Caret,
    LParen,
    RParen,
    Comma,
}

/// A lexeme: its kind and the half-open range of the text that it covers.
#[derive(Clone, Copy, Debug, PartialEq, Eq, Structural)]
pub struct Lexeme {
    pub kind: LexKind,
    pub start: usize,
    pub end: usize,
}

pub open spec fn is_space(c: char) -> bool {
    c == ' ' || c == '\t' || c == '\n' || c == '\r'
}

pub open spec fn is_digit(c: char) -> bool {
    '0' <= c <= '9'
}

pub open spec fn is_name_start(c: char) -> bool {
    ('a' <= c <= 'z') || ('A' <= c <= 'Z') || c == '_'
}

pub open spec fn is_name_char(c: char) -> bool {
    is_name_start(c) || is_digit(c)
}

/// The kind of the one-character lexeme `c`, if it is one.
pub open spec fn symbol_kind(c: char) -> Option<LexKind> {
    if c == '+' {
        Some(LexKind::Plus)
    } else if c == '-' {
        Some(LexKind::Minus)
    } else if c == '*' {
        Some(LexKind::Star)
    } else if c == '/' {
        Some(LexKind::Slash)
    } else if c == '%' {
        Some(LexKind::Percent)
    } else if c == '^' {
        Some(LexKind::Caret)
    } else if c == '(' {
        Some(LexKind::LParen)
    } else if c == ')' {
        Some(LexKind::RParen)
    } else if c == ',' {
        Some(LexKind::Comma)
    } else {
        None
    }
}

/// The first position at or after `pos` that holds no digit.
pub open spec fn digits_end(s: Seq<char>, pos: int) -> int
    decreases s.len() - pos,
{
    if 0 <= pos < s.len() && is_digit(s[pos]) {
        digits_end(s, pos + 1)
    } else {
        pos
    }
}

/// The first position at or after `pos` that holds no character of a name.
pub open spec fn name_end(s: Seq<char>, pos: int) -> int
    decreases s.len() - pos,
{
    if 0 <= pos < s.len() && is_name_char(s[pos]) {
        name_end(s, pos + 1)
    } else {
        pos
    }
}

/// Where the number that starts at `pos` ends: after its digits, and after a
/// point and further digits where a point and a digit follow.
pub open spec fn number_end(s: Seq<char>, pos: int) -> int {
    let e = digits_end(s, pos);
    if 0 <= e && e + 1 < s.len() && s[e] == '.' && is_digit(s[e + 1]) {
        digits_end(s, e + 1)
    } else {
        e
    }
}

/// From `pos` up to where the digits end stand digits, and none stands there.
pub proof fn lemma_digits_end_bounds(s: Seq<char>, pos: int)
    requires
        0 <= pos <= s.len(),
    ensures
        pos <= digits_end(s, pos) <= s.len(),
        forall|i: int| pos <= i < digits_end(s, pos) ==> is_digit(#[trigger] s[i]),
        digits_end(s, pos) < s.len() ==> !is_digit(s[digits_end(s, pos)]),
    decreases s.len() - pos,
{
    if pos < s.len() && is_digit(s[pos]) {
        lemma_digits_end_bounds(s, pos + 1);
    }
}

/// From `pos` up to where the name ends stand characters of a name, and none
/// stands there.
pub proof fn lemma_name_end_bounds(s: Seq<char>, pos: int)
    requires
        0 <= pos <= s.len(),
    ensures
        pos <= name_end(s, pos) <= s.len(),
        forall|i: int| pos <= i < name_end(s, pos) ==> is_name_char(#[trigger] s[i]),
        name_end(s, pos) < s.len() ==> !is_name_char(s[name_end(s, pos)]),
    decreases s.len() - pos,
{
    if pos < s.len() && is_name_char(s[pos]) {
        lemma_name_end_bounds(s, pos + 1);
    }
}

/// A number that starts with a digit is not empty and ends inside the text.
pub proof fn lemma_number_end_bounds(s: Seq<char>, pos: int)
    requires
        0 <= pos < s.len(),
        is_digit(s[pos]),
    ensures
        pos < number_end(s, pos) <= s.len(),
{
    lemma_digits_end_bounds(s, pos);
    let e = digits_end(s, pos);
    if e + 1 < s.len() {
        lemma_digits_end_bounds(s, e + 1);
    }
}

/// The digits of a part of a text end where those of the text end, or where
/// the part ends.
pub proof fn lemma_digits_end_within(s: Seq<char>, from: int, to: int, i: int)
    requires
        0 <= from <= from + i <= to <= s.len(),
    ensures
        digits_end(s.subrange(from, to), i) == (if digits_end(s, from + i) < to {
            digits_end(s, from + i)
        } else {
            to
        }) - from,
    decreases to - from - i,
{
    let part = s.subrange(from, to);
    lemma_digits_end_bounds(s, from + i);
    if from + i < to && is_digit(s[from + i]) {
        assert(part[i] == s[from + i]);
        lemma_digits_end_within(s, from, to, i + 1);
    }
}

/// The lexemes of `s` from `pos` on, in order; `None` where a character
/// starts no lexeme and is no white space.
pub open spec fn lexemes_from(s: Seq<char>, pos: int) -> Option<Seq<Lexeme>>
    decreases s.len() - pos,
{
    if pos < 0 || pos >= s.len() {
        Some(Seq::empty())
    } else if is_space(s[pos]) {
        lexemes_from(s, pos + 1)
    } else if is_digit(s[pos]) || is_name_start(s[pos]) {
        let kind = if is_digit(s[pos]) {
            LexKind::Number
        } else {
            LexKind::Name
        };
        let e = if is_digit(s[pos]) {
            number_end(s, pos)
        } else {
            name_end(s, pos)
        };
        if pos < e <= s.len() {
            match lexemes_from(s, e) {
                Some(rest) => Some(
                    seq![Lexeme { kind, start: pos as usize, end: e as usize }] + rest,
                ),
                None => None,
            }
        } else {
            None
        }
    } else {
        match symbol_kind(s[pos]) {
            Some(kind) => match lexemes_from(s, pos + 1) {
                Some(rest) => Some(
                    seq![Lexeme { kind, start: pos as usize, end: (pos + 1) as usize }] + rest,
                ),
                None => None,
            },
            None => None,
        }
    }
}

/// The lexemes of a text. Only ASCII text has any.
pub open spec fn lexemes(s: Seq<char>) -> Option<Seq<Lexeme>> {
    if vstd::utf8::is_ascii_chars(s) {
        lexemes_from(s, 0)
    } else {
        None
    }
}

/// The lexemes follow one another, none empty, inside a text of `n`
/// characters.
pub open spec fn in_order(lx: Seq<Lexeme>, n: int) -> bool {
    forall|i: int, j: int|
        0 <= i <= j < lx.len() ==> (#[trigger] lx[i]).start < (#[trigger] lx[j]).end <= n
}

/// `bytes` holds the characters of `s`, one byte each.
pub open spec fn mirrors(bytes: Seq<u8>, s: Seq<char>) -> bool {
    &&& bytes.len() == s.len()
    &&& forall|i: int| 0 <= i < s.len() ==> (#[trigger] bytes[i]) as int == s[i] as int
}

/// The bytes of an ASCII text are its characters, one byte each.
pub proof fn lemma_ascii_mirrors(t: &str)
    requires
        vstd::string::is_ascii(t),
    ensures
        mirrors(t.spec_bytes(), t@),
{
    vstd::string::is_ascii_spec_bytes(t);
    vstd::utf8::is_ascii_chars_nat_bound(t@);
    assert forall|i: int| 0 <= i < t@.len() implies (#[trigger] t.spec_bytes()[i]) as int
        == t@[i] as int by {
        assert((t@[i] as nat) < 128);
    }
}

fn byte_is_digit(b: u8) -> (r: bool)
    ensures
        r == (48 <= b <= 57),
{
    b >= 48 && b <= 57
}

fn byte_is_name_start(b: u8) -> (r: bool)
    ensures
        r == ((97 <= b <= 122) || (65 <= b <= 90) || b == 95),
{
    (b >= 97 && b <= 122) || (b >= 65 && b <= 90) || b == 95
}

fn byte_is_space(b: u8) -> (r: bool)
    ensures
        r == (b == 32 || b == 9 || b == 10 || b == 13),
{
    b == 32 || b == 9 || b == 10 || b == 13
}

fn byte_symbol(b: u8) -> (r: Option<LexKind>)
    ensures
        r == (if b == 43 {
            Some(LexKind::Plus)
        } else if b == 45 {
            Some(LexKind::Minus)
        } else if b == 42 {
            Some(LexKind::Star)
        } else if b == 47 {
            Some(LexKind::Slash)
        } else if b == 37 {
            Some(LexKind::Percent)
        } else if b == 94 {
            Some(LexKind::Caret)
        } else if b == 40 {
            Some(LexKind::LParen)
        } else if b == 41 {
            Some(LexKind::RParen)
        } else if b == 44 {
            Some(LexKind::Comma)
        } else {
            None
        }),
{
    if b == 43 {
        Some(LexKind::Plus)
    } else if b == 45 {
        Some(LexKind::Minus)
    } else if b == 42 {
        Some(LexKind::Star)
    } else if b == 47 {
        Some(LexKind::Slash)
    } else if b == 37 {
        Some(LexKind::Percent)
    } else if b == 94 {
        Some(LexKind::Caret)
    } else if b == 40 {
        Some(LexKind::LParen)
    } else if b == 41 {
        Some(LexKind::RParen)
    } else if b == 44 {
        Some(LexKind::Comma)
    } else {
        None
    }
}

pub(crate) fn scan_digits(bytes: &[u8], pos: usize, Ghost(s): Ghost<Seq<char>>) -> (e: usize)
    requires
        mirrors(bytes@, s),
        pos <= bytes@.len(),
    ensures
        e == digits_end(s, pos as int),
        pos <= e <= bytes@.len(),
{
    let mut e: usize = pos;
    while e < bytes.len() && byte_is_digit(bytes[e])
        invariant
            mirrors(bytes@, s),
            pos <= e <= bytes@.len(),
            digits_end(s, pos as int) == digits_end(s, e as int),
        decreases bytes@.len() - e,
    {
        e = e + 1;
    }
    e
}

fn scan_name(bytes: &[u8], pos: usize, Ghost(s): Ghost<Seq<char>>) -> (e: usize)
    requires
        mirrors(bytes@, s),
        pos <= bytes@.len(),
    ensures
        e == name_end(s, pos as int),
        pos <= e <= bytes@.len(),
{
    let mut e: usize = pos;
    while e < bytes.len() && (byte_is_name_start(bytes[e]) || byte_is_digit(bytes[e]))
        invariant
            mirrors(bytes@, s),
            pos <= e <= bytes@.len(),
            name_end(s, pos as int) == name_end(s, e as int),
        decreases bytes@.len() - e,
    {
        e = e + 1;
    }
    e
}

fn scan_number(bytes: &[u8], pos: usize, Ghost(s): Ghost<Seq<char>>) -> (e: usize)
    requires
        mirrors(bytes@, s),
        pos <= bytes@.len(),
    ensures
        e == number_end(s, pos as int),
        pos <= e <= bytes@.len(),
{
    let e = scan_digits(bytes, pos, Ghost(s));
    if e < bytes.len() && bytes.len() - e > 1 && bytes[e] == 46 && byte_is_digit(bytes[e + 1]) {
        scan_digits(bytes, e + 1, Ghost(s))
    } else {
        e
    }
}

/// Splits `input` into its lexemes, or finds that it has none.
pub fn lex(input: &str) -> (r: Option<Vec<Lexeme>>)
    ensures
        match r {
            Some(v) => lexemes(input@) == Some(v@) && in_order(v@, input@.len() as int)
                && input@.len() <= usize::MAX,
            None => lexemes(input@) is None,
        },
{
    if !input.is_ascii() {
        return None;
    }
    let bytes = input.as_bytes();
    let ghost s = input@;
    proof {
        lemma_ascii_mirrors(input);
    }
    let mut out: Vec<Lexeme> = Vec::new();
    let mut pos: usize = 0;
    while pos < bytes.len()
        invariant
            s == input@,
            vstd::utf8::is_ascii_chars(s),
            mirrors(bytes@, s),
            pos <= bytes@.len(),
            in_order(out@, pos as int),
            lexemes_from(s, 0) == (match lexemes_from(s, pos as int) {
                Some(rest) => Some(out@ + rest),
                None => None,
            }),
        decreases bytes@.len() - pos,
    {
        let b = bytes[pos];
        if byte_is_space(b) {
            pos = pos + 1;
        } else if byte_is_digit(b) || byte_is_name_start(b) {
            let number = byte_is_digit(b);
            let e = if number {
                scan_number(bytes, pos, Ghost(s))
            } else {
                scan_name(bytes, pos, Ghost(s))
            };
            proof {
                if number {
                    lemma_number_end_bounds(s, pos as int);
                } else {
                    lemma_name_end_bounds(s, pos + 1);
                }
                let lexeme = Lexeme {
                    kind: if number { LexKind::Number } else { LexKind::Name },
                    start: pos,
                    end: e,
                };
                if let Some(rest) = lexemes_from(s, e as int) {
                    assert(out@.push(lexeme) + rest == out@ + (seq![lexeme] + rest));
                }
            }
            out.push(Lexeme {
                kind: if number { LexKind::Number } else { LexKind::Name },
                start: pos,
                end: e,
            });
            pos = e;
        } else {
            match byte_symbol(b) {
                Some(kind) => {
                    proof {
                        let lexeme = Lexeme { kind, start: pos, end: (pos + 1) as usize };
                        if let Some(rest) = lexemes_from(s, pos + 1) {
                            assert(out@.push(lexeme) + rest == out@ + (seq![lexeme] + rest));
                        }
                    }
                    out.push(Lexeme { kind, start: pos, end: pos + 1 });
                    pos = pos + 1;
                },
                None => {
                    return None;
                },
            }
        }
    }
    proof {
        assert(out@ + Seq::<Lexeme>::empty() == out@);
    }
    Some(out)
}

} // verus!
