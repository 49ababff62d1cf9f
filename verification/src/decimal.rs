//! Decimal numbers, held exactly as their digits.

use vstd::prelude::*;
use vstd::string::*;
use crate::lexer::{
    digits_end, is_digit, lemma_ascii_mirrors, lemma_digits_end_bounds, lemma_digits_end_within,
    mirrors, number_end, scan_digits,
};

verus! {

/// The digits of a decimal number, most significant first, each from 0 to 9:
/// those before the point and those after it.
pub struct Digits {
    pub whole: Seq<u8>,
    pub fraction: Seq<u8>,
}

/// No digit is over 9, and no zero stands where it adds nothing: none leads
/// the whole part and none ends the fraction. Zero has no digits at all.
pub open spec fn canonical(d: Digits) -> bool {
    &&& forall|i: int| 0 <= i < d.whole.len() ==> d.whole[i] <= 9
    &&& forall|i: int| 0 <= i < d.fraction.len() ==> d.fraction[i] <= 9
    &&& d.whole.len() > 0 ==> d.whole[0] != 0
    &&& d.fraction.len() > 0 ==> d.fraction.last() != 0
}

/// `text` is a decimal literal: digits, and then perhaps a point and more
/// digits.
pub open spec fn is_literal(text: Seq<char>) -> bool {
    let e = digits_end(text, 0);
    e > 0 && (e == text.len() || (text[e] == '.' && e + 1 < text.len() && digits_end(text, e + 1)
        == text.len()))
}

/// The value of the digit `c`.
pub open spec fn digit_value(c: char) -> u8 {
    (c as int - 48) as u8
}

/// The values of the digits of `text`.
pub open spec fn digit_values(text: Seq<char>) -> Seq<u8> {
    Seq::new(text.len(), |i: int| digit_value(text[i]))
}

/// `d` without the zeros that it starts with.
pub open spec fn trim_leading(d: Seq<u8>) -> Seq<u8>
    decreases d.len(),
{
    if d.len() > 0 && d[0] == 0 {
        trim_leading(d.subrange(1, d.len() as int))
    } else {
        d
    }
}

/// `d` without the zeros that it ends with.
pub open spec fn trim_trailing(d: Seq<u8>) -> Seq<u8>
    decreases d.len(),
{
    if d.len() > 0 && d.last() == 0 {
        trim_trailing(d.drop_last())
    } else {
        d
    }
}

/// The number that the literal `text` denotes.
pub open spec fn decimal_of(text: Seq<char>) -> Digits {
    let e = digits_end(text, 0);
    Digits {
        whole: trim_leading(digit_values(text.subrange(0, e))),
        fraction: if e < text.len() {
            trim_trailing(digit_values(text.subrange(e + 1, text.len() as int)))
        } else {
            Seq::empty()
        },
    }
}

/// The character of the digit `d`.
pub open spec fn digit_char(d: u8) -> char {
    if d == 0 {
        '0'
    } else if d == 1 {
        '1'
    } else if d == 2 {
        '2'
    } else if d == 3 {
        '3'
    } else if d == 4 {
        '4'
    } else if d == 5 {
        '5'
    } else if d == 6 {
        '6'
    } else if d == 7 {
        '7'
    } else if d == 8 {
        '8'
    } else {
        '9'
    }
}

/// The characters of the digits `d`.
pub open spec fn digit_chars(d: Seq<u8>) -> Seq<char> {
    Seq::new(d.len(), |i: int| digit_char(d[i]))
}

/// The shortest decimal notation of `d`: the whole part, `0` where it has no
/// digits, and then a point and the fraction, where it has digits.
pub open spec fn render_digits(d: Digits) -> Seq<char> {
    (if d.whole.len() == 0 {
        seq!['0']
    } else {
        digit_chars(d.whole)
    }) + (if d.fraction.len() == 0 {
        Seq::empty()
    } else {
        seq!['.'] + digit_chars(d.fraction)
    })
}

/// What the lexer takes for a number is a decimal literal.
pub proof fn lemma_number_is_literal(s: Seq<char>, pos: int)
    requires
        0 <= pos < s.len(),
        is_digit(s[pos]),
    ensures
        is_literal(s.subrange(pos, number_end(s, pos))),
{
    let mid = digits_end(s, pos);
    let end = number_end(s, pos);
    lemma_digits_end_bounds(s, pos);
    lemma_digits_end_bounds(s, pos + 1);
    if end != mid {
        lemma_digits_end_bounds(s, mid + 1);
        lemma_digits_end_bounds(s, mid + 2);
        lemma_digits_end_within(s, pos, end, mid + 1 - pos);
    }
    lemma_digits_end_within(s, pos, end, 0);
    let part = s.subrange(pos, end);
    if end != mid {
        assert(part[mid - pos] == s[mid]);
    }
}

/// A decimal literal holds ASCII characters only.
pub proof fn lemma_literal_is_ascii(text: Seq<char>)
    requires
        is_literal(text),
    ensures
        vstd::utf8::is_ascii_chars(text),
{
    let e = digits_end(text, 0);
    lemma_digits_end_bounds(text, 0);
    if e < text.len() {
        lemma_digits_end_bounds(text, e + 1);
    }
    assert forall|i: int| 0 <= i < text.len() implies '\0' <= #[trigger] text[i] <= '\u{7f}' by {
        if i < e {
            assert(is_digit(text[i]));
        } else if i > e {
            assert(is_digit(text[i]));
        }
    }
}

/// What a literal denotes is canonical.
pub proof fn lemma_decimal_canonical(text: Seq<char>)
    requires
        is_literal(text),
    ensures
        canonical(decimal_of(text)),
{
    let e = digits_end(text, 0);
    lemma_digits_end_bounds(text, 0);
    let whole = digit_values(text.subrange(0, e));
    assert forall|i: int| 0 <= i < whole.len() implies whole[i] <= 9 by {
        assert(is_digit(text[i]));
    }
    lemma_trim_leading(whole);
    if e < text.len() {
        lemma_digits_end_bounds(text, e + 1);
        let fraction = digit_values(text.subrange(e + 1, text.len() as int));
        assert forall|i: int| 0 <= i < fraction.len() implies fraction[i] <= 9 by {
            assert(is_digit(text[e + 1 + i]));
        }
        lemma_trim_trailing(fraction);
    }
}

proof fn lemma_trim_leading(d: Seq<u8>)
    requires
        forall|i: int| 0 <= i < d.len() ==> d[i] <= 9,
    ensures
        forall|i: int| 0 <= i < trim_leading(d).len() ==> trim_leading(d)[i] <= 9,
        trim_leading(d).len() > 0 ==> trim_leading(d)[0] != 0,
    decreases d.len(),
{
    if d.len() > 0 && d[0] == 0 {
        lemma_trim_leading(d.subrange(1, d.len() as int));
    }
}

proof fn lemma_trim_trailing(d: Seq<u8>)
    requires
        forall|i: int| 0 <= i < d.len() ==> d[i] <= 9,
    ensures
        forall|i: int| 0 <= i < trim_trailing(d).len() ==> trim_trailing(d)[i] <= 9,
        trim_trailing(d).len() > 0 ==> trim_trailing(d).last() != 0,
    decreases d.len(),
{
    if d.len() > 0 && d.last() == 0 {
        lemma_trim_trailing(d.drop_last());
    }
}

/// The natural number that the digits `d` write.
pub open spec fn value(d: Seq<u8>) -> nat
    decreases d.len(),
{
    if d.len() == 0 {
        0
    } else {
        value(d.drop_last()) * 10 + d.last() as nat
    }
}

/// Ten to the power `k`.
pub open spec fn pow10(k: nat) -> nat
    decreases k,
{
    if k == 0 {
        1
    } else {
        10 * pow10((k - 1) as nat)
    }
}

/// Two decimal notations write the same number: as fractions over powers of
/// ten they are equal.
pub open spec fn same_number(d1: Digits, d2: Digits) -> bool {
    value(d1.whole + d1.fraction) * pow10(d2.fraction.len()) == value(d2.whole + d2.fraction)
        * pow10(d1.fraction.len())
}

/// The digits of the literal `text` as they stand, zeros and all.
pub open spec fn written(text: Seq<char>) -> Digits {
    let e = digits_end(text, 0);
    Digits {
        whole: digit_values(text.subrange(0, e)),
        fraction: if e < text.len() {
            digit_values(text.subrange(e + 1, text.len() as int))
        } else {
            Seq::empty()
        },
    }
}

proof fn lemma_value_zero_first(d: Seq<u8>)
    ensures
        value(seq![0u8] + d) == value(d),
    decreases d.len(),
{
    let all = seq![0u8] + d;
    if d.len() == 0 {
        assert(all.drop_last() =~= Seq::<u8>::empty());
        assert(value(all.drop_last()) == 0);
    } else {
        assert(all.drop_last() =~= seq![0u8] + d.drop_last());
        lemma_value_zero_first(d.drop_last());
    }
}

/// Zeros before a number add nothing to it.
proof fn lemma_leading_zeros(d: Seq<u8>, f: Seq<u8>)
    ensures
        value(trim_leading(d) + f) == value(d + f),
    decreases d.len(),
{
    if d.len() > 0 && d[0] == 0 {
        let rest = d.subrange(1, d.len() as int);
        lemma_leading_zeros(rest, f);
        assert(d + f =~= seq![0u8] + (rest + f));
        lemma_value_zero_first(rest + f);
    }
}

/// Zeros behind a fraction add nothing to it.
proof fn lemma_trailing_zeros(w: Seq<u8>, f: Seq<u8>)
    ensures
        value(w + trim_trailing(f)) * pow10(f.len()) == value(w + f) * pow10(
            trim_trailing(f).len(),
        ),
    decreases f.len(),
{
    if f.len() > 0 && f.last() == 0 {
        let shorter = f.drop_last();
        lemma_trailing_zeros(w, shorter);
        assert((w + f).drop_last() =~= w + shorter);
        let kept = trim_trailing(f);
        let a = value(w + kept);
        let b = value(w + shorter);
        let p = pow10(shorter.len());
        let q = pow10(kept.len());
        assert(a * p == b * q);
        assert(pow10(f.len()) == 10 * p);
        assert(value(w + f) == b * 10);
        assert(a * (10 * p) == (b * 10) * q) by (nonlinear_arith)
            requires
                a * p == b * q,
        ;
    }
}

/// A literal denotes exactly the number that it writes: dropping the zeros
/// that add nothing leaves the number as it is.
pub proof fn lemma_decimal_exact(text: Seq<char>)
    requires
        is_literal(text),
    ensures
        same_number(decimal_of(text), written(text)),
{
    let raw = written(text);
    let kept = decimal_of(text);
    lemma_leading_zeros(raw.whole, kept.fraction);
    lemma_trailing_zeros(raw.whole, raw.fraction);
    if raw.fraction.len() == 0 {
        assert(kept.fraction =~= Seq::<u8>::empty());
    }
}

/// A decimal number, exact: its digits in canonical form.
#[derive(Debug, PartialEq, Eq)]
pub struct Decimal {
    whole: Vec<u8>,
    fraction: Vec<u8>,
}

/// The values of the digits that `bytes` holds from `from` up to `to`.
fn digits_between(bytes: &[u8], from: usize, to: usize, Ghost(s): Ghost<Seq<char>>) -> (v: Vec<u8>)
    requires
        mirrors(bytes@, s),
        from <= to <= bytes@.len(),
        forall|i: int| from <= i < to ==> is_digit(s[i]),
    ensures
        v@ == digit_values(s.subrange(from as int, to as int)),
{
    let mut v: Vec<u8> = Vec::new();
    let mut i: usize = from;
    while i < to
        invariant
            mirrors(bytes@, s),
            from <= i <= to <= bytes@.len(),
            forall|k: int| from <= k < to ==> is_digit(s[k]),
            v@ == digit_values(s.subrange(from as int, i as int)),
        decreases to - i,
    {
        assert(is_digit(s[i as int]));
        v.push(bytes[i] - 48);
        i = i + 1;
        assert(v@ =~= digit_values(s.subrange(from as int, i as int)));
    }
    v
}

fn digit_text(d: u8) -> (r: &'static str)
    requires
        d <= 9,
    ensures
        r@ == seq![digit_char(d)],
{
    proof {
        reveal_strlit("0");
        reveal_strlit("1");
        reveal_strlit("2");
        reveal_strlit("3");
        reveal_strlit("4");
        reveal_strlit("5");
        reveal_strlit("6");
        reveal_strlit("7");
        reveal_strlit("8");
        reveal_strlit("9");
    }
    let r = if d == 0 {
        "0"
    } else if d == 1 {
        "1"
    } else if d == 2 {
        "2"
    } else if d == 3 {
        "3"
    } else if d == 4 {
        "4"
    } else if d == 5 {
        "5"
    } else if d == 6 {
        "6"
    } else if d == 7 {
        "7"
    } else if d == 8 {
        "8"
    } else {
        "9"
    };
    assert(r@ =~= seq![digit_char(d)]);
    r
}

fn write_digits(digits: &Vec<u8>, out: &mut String)
    requires
        forall|i: int| 0 <= i < digits@.len() ==> digits@[i] <= 9,
    ensures
        final(out)@ == old(out)@ + digit_chars(digits@),
{
    let ghost before = out@;
    let mut i: usize = 0;
    while i < digits.len()
        invariant
            i <= digits@.len(),
            forall|k: int| 0 <= k < digits@.len() ==> digits@[k] <= 9,
            out@ == before + digit_chars(digits@.take(i as int)),
        decreases digits@.len() - i,
    {
        out.append(digit_text(digits[i]));
        i = i + 1;
        assert(out@ =~= before + digit_chars(digits@.take(i as int)));
    }
    assert(digits@.take(i as int) =~= digits@);
}

impl Decimal {
    #[verifier::type_invariant]
    closed spec fn inv(self) -> bool {
        canonical(Digits { whole: self.whole@, fraction: self.fraction@ })
    }

    /// The number that the literal `text` denotes; `None` where `text` is no
    /// literal.
    pub fn from_text(text: &str) -> (r: Option<Decimal>)
        ensures
            match r {
                Some(d) => is_literal(text@) && d@ == decimal_of(text@),
                None => !is_literal(text@),
            },
    {
        let ghost s = text@;
        if !text.is_ascii() {
            proof {
                if is_literal(s) {
                    lemma_literal_is_ascii(s);
                }
            }
            return None;
        }
        let bytes = text.as_bytes();
        proof {
            lemma_ascii_mirrors(text);
            lemma_digits_end_bounds(s, 0);
        }
        let n = bytes.len();
        let e = scan_digits(bytes, 0, Ghost(s));
        if e == 0 {
            return None;
        }
        if e < n {
            if bytes[e] != 46 || n - e < 2 {
                return None;
            }
            let e2 = scan_digits(bytes, e + 1, Ghost(s));
            if e2 != n {
                return None;
            }
            proof {
                lemma_digits_end_bounds(s, e + 1);
            }
        }
        // The whole part, from its first digit that is not zero.
        let mut first: usize = 0;
        while first < e && bytes[first] == 48
            invariant
                mirrors(bytes@, s),
                first <= e <= bytes@.len(),
                trim_leading(digit_values(s.subrange(0, e as int))) == trim_leading(
                    digit_values(s.subrange(first as int, e as int)),
                ),
            decreases e - first,
        {
            proof {
                let d = digit_values(s.subrange(first as int, e as int));
                assert(d.subrange(1, d.len() as int) =~= digit_values(
                    s.subrange(first + 1, e as int),
                ));
            }
            first = first + 1;
        }
        let whole = digits_between(bytes, first, e, Ghost(s));
        // The fraction, up to its last digit that is not zero.
        let start = if e < n {
            e + 1
        } else {
            n
        };
        let mut last: usize = n;
        while last > start && bytes[last - 1] == 48
            invariant
                mirrors(bytes@, s),
                start <= last <= n == bytes@.len(),
                trim_trailing(digit_values(s.subrange(start as int, n as int))) == trim_trailing(
                    digit_values(s.subrange(start as int, last as int)),
                ),
            decreases last - start,
        {
            proof {
                let d = digit_values(s.subrange(start as int, last as int));
                assert(d.drop_last() =~= digit_values(s.subrange(start as int, last - 1)));
            }
            last = last - 1;
        }
        let fraction = digits_between(bytes, start, last, Ghost(s));
        proof {
            lemma_decimal_canonical(s);
            if e == n {
                assert(fraction@ =~= Seq::<u8>::empty());
            }
        }
        Some(Decimal { whole, fraction })
    }

    /// The shortest decimal notation of the number.
    pub fn to_string(&self) -> (r: String)
        ensures
            r@ == render_digits(self@),
    {
        let mut out = String::new();
        self.write(&mut out);
        out
    }

    /// Appends the shortest decimal notation of the number to `out`.
    pub fn write(&self, out: &mut String)
        ensures
            final(out)@ == old(out)@ + render_digits(self@),
    {
        proof {
            use_type_invariant(self);
            reveal_strlit("0");
            reveal_strlit(".");
        }
        let ghost before = out@;
        if self.whole.len() == 0 {
            out.append("0");
        } else {
            write_digits(&self.whole, out);
        }
        if self.fraction.len() > 0 {
            out.append(".");
            write_digits(&self.fraction, out);
        }
        assert(out@ =~= before + render_digits(self@));
    }

    /// The digits before the point, most significant first; none for zero.
    pub fn whole_digits(&self) -> (r: &Vec<u8>)
        ensures
            r@ == self@.whole,
            canonical(self@),
    {
        proof {
            use_type_invariant(self);
        }
        &self.whole
    }

    /// The digits after the point.
    pub fn fraction_digits(&self) -> (r: &Vec<u8>)
        ensures
            r@ == self@.fraction,
            canonical(self@),
    {
        proof {
            use_type_invariant(self);
        }
        &self.fraction
    }

}

impl Clone for Decimal {
    fn clone(&self) -> (r: Self)
        ensures
            r@ == self@,
    {
        proof {
            use_type_invariant(self);
        }
        let whole = self.whole.clone();
        let fraction = self.fraction.clone();
        assert(whole@ =~= self.whole@);
        assert(fraction@ =~= self.fraction@);
        Decimal { whole, fraction }
    }
}

impl View for Decimal {
    type V = Digits;

    closed spec fn view(&self) -> Digits {
        Digits { whole: self.whole@, fraction: self.fraction@ }
    }
}

} // verus!
