//! Reading `.dsch` source text into a `Program`.
//!
//! The grammar:
//!
//! * Blanks (spaces, tabs, line ends, commas) separate expressions; `--`
//!   starts a comment that runs to the end of the line.
//! * `( ... )`, `{ ... }` and `[ ... ]` group expressions as a sequence, a
//!   stack and a set; numbers joined by `:` (`3:2:1`) form a ratio.
//! * A number is `<digits>` or `<digits>.<digits>`, held exactly; `+<n>` and
//!   `-<n>` are relative numbers. A number directly followed by `'` or `"`
//!   is a fixed duration in minutes (`5'`, `5'2"`) or seconds (`2"`); by
//!   `Hz`, a frequency.
//! * `d<n>`, `d<a>:<b>` and `d<a>/<b>` (no blank after `d`) are durations:
//!   a fraction of a whole note, a tuplet, a rational fraction.
//! * `#<n>` is a program change, `~` a rest, and `ppp` to `fff` dynamics.
//! * `@` is the register prefix; `bpm`, `Hz` and `^` are suffixes; `:`,
//!   `><`, `..`, `<`, `>`, `+`, `-`, `*`, `/` are infix operators.
//! * A name starts with a letter or `_` and goes on with letters, digits,
//!   `_`, `#` and `'`. Words separated by single spaces and directly followed
//!   by `:` name a declaration, `name: exp`.
use crate::compiler::ast::{
    view_exp, view_exps, Absolute, SimpleV, CompoundV, DeclV, Compound, Decl, Duration, Dynamic, Exp, ExpDecl, ExpV, Fixed,
    Fractional, Ident, Infix, Interpolation, Prefix, Program, Pure, Rational, Relative, Scalar, Sign,
    Simple, Suffix, Tuplet, lemma_view_exps_push,
};
use crate::compiler::codegen::fraction::Fraction;
use crate::compiler::codegen::Prog;
use vstd::prelude::*;

verus! {

/// Why source text could not be read, with the place (in characters) where
/// reading stopped.
#[derive(Debug, Clone, Copy, PartialEq, Eq, Structural)]
pub enum ParseError {
    /// A character that cannot start or continue an expression here.
    Unexpected(usize),
    /// A group that is never closed.
    Unclosed(usize),
    /// A number too large to be held.
    TooLarge(usize),
    /// Groups and declarations nested deeper than `MAX_NESTING`.
    TooDeep(usize),
}

/// How deeply groups and declarations may nest.
pub const MAX_NESTING: usize = 128;

/// A decimal digit.
pub open spec fn is_digit(c: char) -> bool {
    '0' <= c && c <= '9'
}

/// The value of a decimal digit.
pub open spec fn digit_value(c: char) -> nat {
    (c as int - '0' as int) as nat
}

/// The value of a run of decimal digits.
pub open spec fn decimal(s: Seq<char>) -> nat
    decreases s.len(),
{
    if s.len() == 0 {
        0
    } else {
        decimal(s.drop_last()) * 10 + digit_value(s.last())
    }
}

/// Ten to the power `k`.
pub open spec fn pow10(k: nat) -> nat
    decreases k,
{
    if k == 0 {
        1
    } else {
        pow10((k - 1) as nat) * 10
    }
}

/// A character that separates expressions.
pub open spec fn is_blank(c: char) -> bool {
    c == ' ' || c == '\t' || c == '\n' || c == '\r' || c == ','
}

/// A character that can start a name.
pub open spec fn is_name_start(c: char) -> bool {
    ('a' <= c && c <= 'z') || ('A' <= c && c <= 'Z') || c == '_'
}

/// A character that can go on in a name.
pub open spec fn is_name_char(c: char) -> bool {
    is_name_start(c) || is_digit(c) || c == '#' || c == '\''
}

/// Every character of `s` from `a` to `b` is a digit.
pub open spec fn all_digits(s: Seq<char>, a: int, b: int) -> bool {
    forall|k: int| a <= k < b ==> #[trigger] is_digit(s[k])
}

/// Every character of `s` from `a` to `b` can go on in a name.
pub open spec fn all_name_chars(s: Seq<char>, a: int, b: int) -> bool {
    forall|k: int| a <= k < b ==> #[trigger] is_name_char(s[k])
}

/// Every number in an expression is well formed.
pub open spec fn exp_wf(e: ExpV) -> bool
    decreases e,
{
    match e {
        ExpV::Compound(c) => match c {
            crate::compiler::ast::CompoundV::Parens(v) => forall|i: int| 0 <= i < v.len() ==> exp_wf(#[trigger] v[i]),
            crate::compiler::ast::CompoundV::Braces(v) => forall|i: int| 0 <= i < v.len() ==> exp_wf(#[trigger] v[i]),
            crate::compiler::ast::CompoundV::Brackets(v) => forall|i: int| 0 <= i < v.len() ==> exp_wf(#[trigger] v[i]),
            crate::compiler::ast::CompoundV::Ratio(v) => forall|i: int| 0 <= i < v.len() ==> (#[trigger] v[i]).wf(),
        },
        ExpV::Simple(s) => match s {
            crate::compiler::ast::SimpleV::Scalar(sc) => scalar_wf(sc),
            crate::compiler::ast::SimpleV::Decl(d) => match d {
                crate::compiler::ast::DeclV::ExpDecl(_, b) => exp_wf(*b),
                _ => true,
            },
            _ => true,
        },
        _ => true,
    }
}

/// Every number in a value is well formed.
pub open spec fn scalar_wf(s: Scalar) -> bool {
    match s {
        Scalar::Duration(Duration::Fixed(f)) => f.minutes.wf() && f.seconds.wf(),
        Scalar::Duration(Duration::Fractional(Fractional::Absolute(a))) => a.wf(),
        Scalar::Duration(Duration::Fractional(Fractional::Tuplet(t))) => t.lhs.wf() && t.rhs.wf(),
        Scalar::Duration(Duration::Fractional(Fractional::Rational(q))) => q.num.wf() && q.den.wf(),
        Scalar::Frequency(a) => a.wf(),
        Scalar::Pure(Pure::Absolute(a)) => a.wf(),
        Scalar::Pure(Pure::Relative(r)) => r.val.wf(),
        Scalar::Pure(Pure::Rational(q)) => q.num.wf() && q.den.wf(),
        Scalar::Tuplet(t) => t.lhs.wf() && t.rhs.wf(),
        _ => true,
    }
}

fn digit(c: char) -> (r: bool)
    ensures
        r == is_digit(c),
{
    '0' <= c && c <= '9'
}

fn blank(c: char) -> (r: bool)
    ensures
        r == is_blank(c),
{
    c == ' ' || c == '\t' || c == '\n' || c == '\r' || c == ','
}

fn name_start(c: char) -> (r: bool)
    ensures
        r == is_name_start(c),
{
    ('a' <= c && c <= 'z') || ('A' <= c && c <= 'Z') || c == '_'
}

fn name_char(c: char) -> (r: bool)
    ensures
        r == is_name_char(c),
{
    name_start(c) || digit(c) || c == '#' || c == '\''
}

/// The characters of the text, in order.
pub fn chars_of(src: &str) -> (r: Vec<char>)
    ensures
        r@ == src@,
{
    let n = src.unicode_len();
    let mut r: Vec<char> = Vec::new();
    let mut i: usize = 0;
    while i < n
        invariant
            n == src@.len(),
            i <= n,
            r@ == src@.take(i as int),
        decreases n - i,
    {
        r.push(src.get_char(i));
        proof {
            assert(src@.take(i + 1) =~= src@.take(i as int).push(src@[i as int]));
        }
        i = i + 1;
    }
    proof {
        assert(src@.take(n as int) =~= src@);
    }
    r
}

/// Where the blanks and comments from `i` on end; `in_comment` when `i` is
/// inside a comment, which runs up to the end of its line.
pub open spec fn skipped(cs: Seq<char>, i: int, in_comment: bool) -> int
    decreases cs.len() - i,
{
    if i < 0 || i >= cs.len() {
        i
    } else if in_comment {
        skipped(cs, i + 1, cs[i] != '\n')
    } else if is_blank(cs[i]) {
        skipped(cs, i + 1, false)
    } else if cs[i] == '-' && i + 1 < cs.len() && cs[i + 1] == '-' {
        skipped(cs, i + 2, true)
    } else {
        i
    }
}

/// The place after the blanks and comments from `i` on: every character
/// skipped is a blank or part of a comment, and what follows (if anything)
/// is neither a blank nor the start of a comment.
pub fn skip_blanks(cs: &Vec<char>, i: usize) -> (j: usize)
    requires
        i <= cs@.len(),
    ensures
        j == skipped(cs@, i as int, false),
        i <= j <= cs@.len(),
        j < cs@.len() ==> !is_blank(cs@[j as int]),
        j + 1 < cs@.len() ==> !(cs@[j as int] == '-' && cs@[j + 1] == '-'),
{
    let mut j = i;
    while j < cs.len()
        invariant
            i <= j <= cs@.len(),
            skipped(cs@, j as int, false) == skipped(cs@, i as int, false),
        decreases cs@.len() - j,
    {
        let c = cs[j];
        if blank(c) {
            j = j + 1;
        } else if c == '-' && j + 1 < cs.len() && cs[j + 1] == '-' {
            let ghost j0 = j;
            j = j + 2;
            while j < cs.len() && cs[j] != '\n'
                invariant
                    i <= j <= cs@.len(),
                    j0 < j,
                    skipped(cs@, j as int, true) == skipped(cs@, i as int, false),
                decreases cs@.len() - j,
            {
                j = j + 1;
            }
            proof {
                if j < cs@.len() {
                    assert(cs@[j as int] == '\n');
                    assert(is_blank(cs@[j as int]));
                }
            }
        } else {
            return j;
        }
    }
    j
}

/// The end of the run of digits that starts at `i`.
fn digits_end(cs: &Vec<char>, i: usize) -> (j: usize)
    requires
        i <= cs@.len(),
    ensures
        i <= j <= cs@.len(),
        all_digits(cs@, i as int, j as int),
        j < cs@.len() ==> !is_digit(cs@[j as int]),
{
    let mut j = i;
    while j < cs.len() && digit(cs[j])
        invariant
            i <= j <= cs@.len(),
            all_digits(cs@, i as int, j as int),
        decreases cs@.len() - j,
    {
        j = j + 1;
    }
    j
}

/// The value of the digits from `i` to `j`, `None` when it does not fit.
fn digits_value(cs: &Vec<char>, i: usize, j: usize) -> (r: Option<u64>)
    requires
        i <= j <= cs@.len(),
        all_digits(cs@, i as int, j as int),
    ensures
        r == (if decimal(cs@.subrange(i as int, j as int)) <= u64::MAX {
            Some(decimal(cs@.subrange(i as int, j as int)) as u64)
        } else {
            None
        }),
{
    let mut acc: u64 = 0;
    let mut k = i;
    proof {
        assert(cs@.subrange(i as int, i as int) =~= Seq::<char>::empty());
    }
    while k < j
        invariant
            i <= k <= j <= cs@.len(),
            all_digits(cs@, i as int, j as int),
            acc == decimal(cs@.subrange(i as int, k as int)),
        decreases j - k,
    {
        let c = cs[k];
        proof {
            assert(is_digit(cs@[k as int]));
            assert(cs@.subrange(i as int, k + 1).drop_last() =~= cs@.subrange(i as int, k as int));
            assert(cs@.subrange(i as int, k + 1).last() == c);
        }
        let d = (c as u32 - '0' as u32) as u64;
        let next = match acc.checked_mul(10) {
            Some(t) => t.checked_add(d),
            None => None,
        };
        match next {
            Some(v) => {
                acc = v;
            },
            None => {
                proof {
                    lemma_decimal_prefix(cs@, i as int, k + 1, j as int);
                }
                return None;
            },
        }
        k = k + 1;
    }
    Some(acc)
}

/// A longer run of digits has a value no smaller.
proof fn lemma_decimal_prefix(s: Seq<char>, i: int, k: int, j: int)
    requires
        0 <= i <= k <= j <= s.len(),
    ensures
        decimal(s.subrange(i, k)) <= decimal(s.subrange(i, j)),
    decreases j - k,
{
    if k < j {
        lemma_decimal_prefix(s, i, k, j - 1);
        assert(s.subrange(i, j).drop_last() =~= s.subrange(i, j - 1));
    }
}

/// A number read from source text, and where it ends.
pub open spec fn number_at(cs: Seq<char>, i: int, j: int, a: Absolute) -> bool {
    let e = number_int_end(cs, i);
    &&& i < e
    &&& if e + 1 < cs.len() && cs[e] == '.' && is_digit(cs[e + 1]) {
        let f = number_int_end(cs, e + 1);
        &&& j == f
        &&& a == Absolute::Float(
            Fraction {
                numer: decimal(cs.subrange(i, e) + cs.subrange(e + 1, f)) as u64,
                denom: pow10((f - e - 1) as nat) as u64,
            },
        )
    } else {
        &&& j == e
        &&& a == Absolute::UInt(decimal(cs.subrange(i, e)) as u64)
    }
}

/// The end of the run of digits from `i`.
pub open spec fn number_int_end(cs: Seq<char>, i: int) -> int
    decreases cs.len() - i,
{
    if 0 <= i < cs.len() && is_digit(cs[i]) {
        number_int_end(cs, i + 1)
    } else {
        i
    }
}

/// The run of digits from `i` ends where `digits_end` says.
proof fn lemma_int_end(cs: Seq<char>, i: int, j: int)
    requires
        0 <= i <= j <= cs.len(),
        all_digits(cs, i, j),
        j < cs.len() ==> !is_digit(cs[j]),
    ensures
        number_int_end(cs, i) == j,
    decreases j - i,
{
    if i < j {
        assert(is_digit(cs[i]));
        lemma_int_end(cs, i + 1, j);
    }
}

/// The decimal value of digits written after others.
proof fn lemma_decimal_concat(a: Seq<char>, b: Seq<char>)
    ensures
        decimal(a + b) == decimal(a) * pow10(b.len()) + decimal(b),
    decreases b.len(),
{
    if b.len() == 0 {
        assert(a + b =~= a);
        assert(pow10(b.len()) == 1);
        assert(decimal(b) == 0);
        assert(decimal(a) * 1 == decimal(a));
    } else {
        assert((a + b).drop_last() =~= a + b.drop_last());
        assert((a + b).last() == b.last());
        lemma_decimal_concat(a, b.drop_last());
        let p = pow10(b.drop_last().len());
        let x = decimal(a);
        let y = decimal(b.drop_last());
        let d = digit_value(b.last());
        assert(decimal(a + b) == decimal(a + b.drop_last()) * 10 + d);
        assert(decimal(b) == y * 10 + d);
        assert(pow10(b.len()) == p * 10);
        assert((x * p + y) * 10 + d == x * (p * 10) + (y * 10 + d)) by (nonlinear_arith);
        assert(decimal(a + b.drop_last()) == x * p + y);
        assert(decimal(a + b) == x * pow10(b.len()) + decimal(b));
    }
}

/// Ten to a power is positive.
proof fn lemma_pow10_pos(k: nat)
    ensures
        pow10(k) >= 1,
    decreases k,
{
    if k > 0 {
        lemma_pow10_pos((k - 1) as nat);
    }
}

/// Ten to a larger power is no smaller.
proof fn lemma_pow10_mono(a: nat, b: nat)
    requires
        a <= b,
    ensures
        pow10(a) <= pow10(b),
    decreases b - a,
{
    if a < b {
        lemma_pow10_mono(a, (b - 1) as nat);
        lemma_pow10_pos((b - 1) as nat);
    }
}

/// The number that starts at `i` and where it ends: an integer, or a
/// decimal held exactly as its digits over a power of ten; `None` when the
/// digits or the power of ten do not fit in 64 bits.
pub open spec fn number_read(cs: Seq<char>, i: int) -> Option<(Absolute, int)> {
    let e = number_int_end(cs, i);
    if e + 1 < cs.len() && cs[e] == '.' && is_digit(cs[e + 1]) {
        let f = number_int_end(cs, e + 1);
        let n = decimal(cs.subrange(i, e) + cs.subrange(e + 1, f));
        let d = pow10((f - e - 1) as nat);
        if n <= u64::MAX && d <= u64::MAX {
            Some((Absolute::Float(Fraction { numer: n as u64, denom: d as u64 }), f))
        } else {
            None
        }
    } else {
        let v = decimal(cs.subrange(i, e));
        if v <= u64::MAX {
            Some((Absolute::UInt(v as u64), e))
        } else {
            None
        }
    }
}

/// What reading a number gives, as a result.
pub open spec fn number_result(cs: Seq<char>, i: int) -> Result<(Absolute, int), ParseError> {
    match number_read(cs, i) {
        Some(x) => Ok(x),
        None => Err(ParseError::TooLarge(i as usize)),
    }
}

/// Reads the number that starts at `i`, a digit: an integer, or a decimal
/// held exactly as its digits over a power of ten.
pub fn number(cs: &Vec<char>, i: usize) -> (r: Result<(Absolute, usize), ParseError>)
    requires
        i < cs@.len(),
        is_digit(cs@[i as int]),
    ensures
        r matches Ok((a, j)) ==> number_at(cs@, i as int, j as int, a) && a.wf() && i < j <= cs@.len(),
        r is Err ==> r == Err::<(Absolute, usize), ParseError>(ParseError::TooLarge(i)),
        number_read(cs@, i as int) matches Some((a, j)) ==> r == Ok::<(Absolute, usize), ParseError>((a, j as usize)),
        number_read(cs@, i as int) is None ==> r is Err,
{
    let e = digits_end(cs, i);
    proof {
        lemma_int_end(cs@, i as int, e as int);
    }
    if e < cs.len() && e + 1 < cs.len() && cs[e] == '.' && digit(cs[e + 1]) {
        let f = digits_end(cs, e + 1);
        proof {
            lemma_int_end(cs@, e + 1, f as int);
        }
        let ghost a = cs@.subrange(i as int, e as int);
        let ghost b = cs@.subrange(e + 1, f as int);
        proof {
            lemma_decimal_concat(a, b);
            lemma_pow10_pos(b.len());
            assert(b.len() == f - e - 1);
            assert(decimal(a) * pow10(b.len()) >= decimal(a)) by (nonlinear_arith)
                requires
                    pow10(b.len()) >= 1,
            ;
        }
        let whole = match digits_value(cs, i, e) {
            Some(v) => v,
            None => {
                return Err(ParseError::TooLarge(i));
            },
        };
        let frac = match digits_value(cs, e + 1, f) {
            Some(v) => v,
            None => {
                return Err(ParseError::TooLarge(i));
            },
        };
        let mut den: u64 = 1;
        let mut k = e + 1;
        proof {
            assert(cs@.subrange(e + 1, e + 1) =~= Seq::<char>::empty());
        }
        while k < f
            invariant
                e + 1 <= k <= f <= cs@.len(),
                den == pow10((k - e - 1) as nat),
                e as int == number_int_end(cs@, i as int),
                f as int == number_int_end(cs@, e + 1),
                e + 1 < cs@.len() && cs@[e as int] == '.' && is_digit(cs@[e + 1]),
            decreases f - k,
        {
            den = match den.checked_mul(10) {
                Some(v) => v,
                None => {
                    proof {
                        assert(pow10((k - e) as nat) == pow10((k - e - 1) as nat) * 10);
                        assert(pow10((k - e) as nat) > u64::MAX);
                        lemma_pow10_mono((k - e) as nat, (f - e - 1) as nat);
                        assert(pow10((f - e - 1) as nat) > u64::MAX);
                        assert(number_read(cs@, i as int) is None);
                    }
                    return Err(ParseError::TooLarge(i));
                },
            };
            k = k + 1;
        }
        let numer = match whole.checked_mul(den) {
            Some(v) => v.checked_add(frac),
            None => None,
        };
        match numer {
            Some(n) => Ok((Absolute::Float(Fraction { numer: n, denom: den }), f)),
            None => Err(ParseError::TooLarge(i)),
        }
    } else {
        match digits_value(cs, i, e) {
            Some(v) => Ok((Absolute::UInt(v), e)),
            None => Err(ParseError::TooLarge(i)),
        }
    }
}

/// The end of the run of name characters from `i`.
pub open spec fn name_end_at(cs: Seq<char>, i: int) -> int
    decreases cs.len() - i,
{
    if 0 <= i < cs.len() && is_name_char(cs[i]) {
        name_end_at(cs, i + 1)
    } else {
        i
    }
}

/// The run of name characters from `i` ends at `j`.
proof fn lemma_name_end(cs: Seq<char>, i: int, j: int)
    requires
        0 <= i <= j <= cs.len(),
        all_name_chars(cs, i, j),
        j < cs.len() ==> !is_name_char(cs[j]),
    ensures
        name_end_at(cs, i) == j,
    decreases j - i,
{
    if i < j {
        assert(is_name_char(cs[i]));
        lemma_name_end(cs, i + 1, j);
    }
}

/// Where a declared name ends, read from inside it at `j`: name characters,
/// and single spaces before a letter or `_`, up to a `:`.
pub open spec fn declared_at(cs: Seq<char>, j: int) -> Option<int>
    decreases cs.len() - j,
{
    if 0 <= j < cs.len() {
        if is_name_char(cs[j]) {
            declared_at(cs, j + 1)
        } else if cs[j] == ':' {
            Some(j)
        } else if cs[j] == ' ' && j + 1 < cs.len() && is_name_start(cs[j + 1]) {
            declared_at(cs, j + 1)
        } else {
            None
        }
    } else {
        None
    }
}

/// Reading a declared name from inside a word gives what reading it from
/// the end of the word gives.
proof fn lemma_declared_skip(cs: Seq<char>, i: int, j: int)
    requires
        0 <= i <= j <= cs.len(),
        all_name_chars(cs, i, j),
    ensures
        declared_at(cs, i) == declared_at(cs, j),
    decreases j - i,
{
    if i < j {
        assert(is_name_char(cs[i]));
        lemma_declared_skip(cs, i + 1, j);
    }
}

/// The end of the name that starts at `i`.
fn name_end(cs: &Vec<char>, i: usize) -> (j: usize)
    requires
        i <= cs@.len(),
    ensures
        j == name_end_at(cs@, i as int),
        i <= j <= cs@.len(),
        all_name_chars(cs@, i as int, j as int),
        j < cs@.len() ==> !is_name_char(cs@[j as int]),
{
    let mut j = i;
    while j < cs.len() && name_char(cs[j])
        invariant
            i <= j <= cs@.len(),
            all_name_chars(cs@, i as int, j as int),
        decreases cs@.len() - j,
    {
        j = j + 1;
    }
    proof {
        lemma_name_end(cs@, i as int, j as int);
    }
    j
}

/// Where the declared name that starts at `i` ends, when words separated by
/// single spaces are directly followed by `:` there; the end of the last word.
fn declared_name_end(cs: &Vec<char>, i: usize) -> (r: Option<usize>)
    requires
        i < cs@.len(),
        is_name_start(cs@[i as int]),
    ensures
        r matches Some(j) ==> declared_at(cs@, i as int) == Some(j as int),
        r is None ==> declared_at(cs@, i as int) is None,
        r matches Some(j) ==> i < j < cs@.len() && cs@[j as int] == ':',
{
    let mut j = name_end(cs, i);
    proof {
        lemma_declared_skip(cs@, i as int, j as int);
    }
    if j == i {
        return None;
    }
    loop
        invariant
            i < j <= cs@.len(),
            declared_at(cs@, j as int) == declared_at(cs@, i as int),
            j < cs@.len() ==> !is_name_char(cs@[j as int]),
        decreases cs@.len() - j,
    {
        if j < cs.len() && cs[j] == ':' {
            return Some(j);
        }
        if j < cs.len() && j + 1 < cs.len() && cs[j] == ' ' && name_start(cs[j + 1]) {
            let k = name_end(cs, j + 1);
            proof {
                lemma_declared_skip(cs@, j + 1, k as int);
            }
            j = k;
        } else {
            return None;
        }
    }
}

/// Whether the characters from `i` read `word` and no name goes on after it.
fn word_at(cs: &Vec<char>, i: usize, j: usize, word: &str) -> (r: bool)
    requires
        i <= j <= cs@.len(),
    ensures
        r == (cs@.subrange(i as int, j as int) == word@),
{
    let n = word.unicode_len();
    if j - i != n {
        proof {
            assert(cs@.subrange(i as int, j as int).len() != word@.len());
        }
        return false;
    }
    let mut k: usize = 0;
    while k < n
        invariant
            n == word@.len(),
            j - i == n,
            i <= j <= cs@.len(),
            k <= n,
            forall|m: int| 0 <= m < k ==> cs@[i + m] == word@[m],
        decreases n - k,
    {
        if cs[i + k] != word.get_char(k) {
            proof {
                assert(cs@.subrange(i as int, j as int)[k as int] != word@[k as int]);
            }
            return false;
        }
        k = k + 1;
    }
    proof {
        assert(cs@.subrange(i as int, j as int) =~= word@);
    }
    true
}

/// The run of digits from a digit at `i` ends after `i`, within the text.
pub proof fn lemma_int_end_moves(cs: Seq<char>, i: int)
    requires
        0 <= i <= cs.len(),
    ensures
        i <= number_int_end(cs, i) <= cs.len(),
        i < cs.len() && is_digit(cs[i]) ==> i < number_int_end(cs, i),
    decreases cs.len() - i,
{
    if i < cs.len() && is_digit(cs[i]) {
        lemma_int_end_moves(cs, i + 1);
    }
}

/// A number read from a digit at `i` ends after `i`, within the text.
pub proof fn lemma_number_moves(cs: Seq<char>, i: int)
    requires
        0 <= i < cs.len(),
        is_digit(cs[i]),
    ensures
        number_read(cs, i) matches Some((_, j)) ==> i < j <= cs.len(),
{
    lemma_int_end_moves(cs, i);
    let e = number_int_end(cs, i);
    if e + 1 < cs.len() && cs[e] == '.' && is_digit(cs[e + 1]) {
        lemma_int_end_moves(cs, e + 1);
    }
}

/// A closing bracket.
pub open spec fn is_closing(c: char) -> bool {
    c == ')' || c == '}' || c == ']'
}

/// The bracket that closes `c`.
pub open spec fn closer(c: char) -> char {
    if c == '(' {
        ')'
    } else if c == '{' {
        '}'
    } else {
        ']'
    }
}

/// The group that `c` opens, holding `v`.
pub open spec fn group(c: char, v: Seq<ExpV>) -> ExpV {
    if c == '(' {
        ExpV::Compound(CompoundV::Parens(v))
    } else if c == '{' {
        ExpV::Compound(CompoundV::Braces(v))
    } else {
        ExpV::Compound(CompoundV::Brackets(v))
    }
}

/// A value, as an expression.
pub open spec fn scalar_exp(sc: Scalar) -> ExpV {
    ExpV::Simple(SimpleV::Scalar(sc))
}

/// The numbers after `:`s from `k` on (`:2:1` in `3:2:1`), and where they
/// end.
pub open spec fn ratio_read(cs: Seq<char>, k: int) -> Result<(Seq<Absolute>, int), ParseError>
    decreases cs.len() - k,
{
    if 0 <= k && k + 1 < cs.len() && cs[k] == ':' && is_digit(cs[k + 1]) {
        match number_result(cs, k + 1) {
            Err(x) => Err(x),
            Ok((b, e)) => {
                proof {
                    lemma_number_moves(cs, k + 1);
                }
                match ratio_read(cs, e) {
                    Err(x) => Err(x),
                    Ok((rest, end)) => Ok((seq![b] + rest, end)),
                }
            },
        }
    } else {
        Ok((Seq::empty(), k))
    }
}

/// What the number `a`, read up to `j`, makes with what directly follows it:
/// a fixed duration (`5'`, `5'2"`, `2"`), a frequency (`440Hz`), a ratio
/// (`3:2:1`), or the number itself.
pub open spec fn number_exp(cs: Seq<char>, a: Absolute, j: int) -> Result<(ExpV, int), ParseError> {
    let n = cs.len();
    if j < n && cs[j] == '\'' {
        let k = j + 1;
        let minutes_only = Ok((scalar_exp(Scalar::Duration(Duration::Fixed(Fixed { minutes: a, seconds: Absolute::UInt(0) }))), k));
        if k < n && is_digit(cs[k]) {
            match number_result(cs, k) {
                Err(x) => Err(x),
                Ok((sec, e)) => if e < n && cs[e] == '"' {
                    Ok((scalar_exp(Scalar::Duration(Duration::Fixed(Fixed { minutes: a, seconds: sec }))), e + 1))
                } else {
                    minutes_only
                },
            }
        } else {
            minutes_only
        }
    } else if j < n && cs[j] == '"' {
        Ok((scalar_exp(Scalar::Duration(Duration::Fixed(Fixed { minutes: Absolute::UInt(0), seconds: a }))), j + 1))
    } else if j + 1 < n && cs[j] == 'H' && cs[j + 1] == 'z' && (j + 2 >= n || !is_name_char(cs[j + 2])) {
        Ok((scalar_exp(Scalar::Frequency(a)), j + 2))
    } else if j + 1 < n && cs[j] == ':' && is_digit(cs[j + 1]) {
        match ratio_read(cs, j) {
            Err(x) => Err(x),
            Ok((rest, k)) => Ok((ExpV::Compound(CompoundV::Ratio(seq![a] + rest)), k)),
        }
    } else {
        Ok((scalar_exp(Scalar::Pure(Pure::Absolute(a))), j))
    }
}

/// A duration after `d`, from the digit at `i`: `d<n>`, the tuplet
/// `d<a>:<b>`, or the fraction `d<a>/<b>`.
pub open spec fn duration_exp(cs: Seq<char>, i: int) -> Result<(ExpV, int), ParseError> {
    let n = cs.len();
    match number_result(cs, i) {
        Err(x) => Err(x),
        Ok((a, j)) => if j + 1 < n && (cs[j] == ':' || cs[j] == '/') && is_digit(cs[j + 1]) {
            match number_result(cs, j + 1) {
                Err(x) => Err(x),
                Ok((b, e)) => Ok((
                    scalar_exp(
                        Scalar::Duration(
                            Duration::Fractional(
                                if cs[j] == ':' {
                                    Fractional::Tuplet(Tuplet { lhs: a, rhs: b })
                                } else {
                                    Fractional::Rational(Rational { num: a, den: b })
                                },
                            ),
                        ),
                    ),
                    e,
                )),
            }
        } else {
            Ok((scalar_exp(Scalar::Duration(Duration::Fractional(Fractional::Absolute(a)))), j))
        },
    }
}

/// A dynamic marking, `ppp` to `fff`.
pub open spec fn is_dynamic_word(w: Seq<char>) -> bool {
    ||| w == seq!['p', 'p', 'p']
    ||| w == seq!['p', 'p']
    ||| w == seq!['p']
    ||| w == seq!['m', 'p']
    ||| w == seq!['m', 'f']
    ||| w == seq!['f']
    ||| w == seq!['f', 'f']
    ||| w == seq!['f', 'f', 'f']
}

/// What the word from `i` to `j` reads as: the suffix `bpm` or `Hz`, a
/// dynamic marking, or a name.
pub open spec fn word_value(cs: Seq<char>, i: int, j: int, e: ExpV) -> bool {
    let w = cs.subrange(i, j);
    if w == seq!['b', 'p', 'm'] {
        e == ExpV::Simple(SimpleV::Suffix(Suffix::Bpm))
    } else if w == seq!['H', 'z'] {
        e == ExpV::Simple(SimpleV::Suffix(Suffix::Freq))
    } else if is_dynamic_word(w) {
        e matches ExpV::Simple(SimpleV::Scalar(Scalar::Dynamic(d))) && d.0@ == w
    } else {
        e matches ExpV::Simple(SimpleV::Ident(id)) && id.0@ == w
    }
}

/// The run of name characters from `i` ends between `i` and the end of the
/// text.
proof fn lemma_name_end_bounds(cs: Seq<char>, i: int)
    requires
        0 <= i <= cs.len(),
    ensures
        i <= name_end_at(cs, i) <= cs.len(),
    decreases cs.len() - i,
{
    if i < cs.len() && is_name_char(cs[i]) {
        lemma_name_end_bounds(cs, i + 1);
    }
}

/// The eight dynamic markings are read as dynamics: wherever an expression
/// is read at `i` and the word there, not a declaration, is `ppp`, `pp`,
/// `p`, `mp`, `mf`, `f`, `ff` or `fff`, what is read is the dynamic marking
/// holding that word, never a name.
pub proof fn law_dynamic_markings_read_as_dynamics(cs: Seq<char>, i: int, depth: nat, e: ExpV)
    requires
        0 <= i < cs.len(),
        declared_at(cs, i) is None,
        ({
            let w = cs.subrange(i, name_end_at(cs, i));
            ||| w == seq!['p', 'p', 'p']
            ||| w == seq!['p', 'p']
            ||| w == seq!['p']
            ||| w == seq!['m', 'p']
            ||| w == seq!['m', 'f']
            ||| w == seq!['f']
            ||| w == seq!['f', 'f']
            ||| w == seq!['f', 'f', 'f']
        }),
        exp_value(cs, i, depth, e),
    ensures
        e matches ExpV::Simple(SimpleV::Scalar(Scalar::Dynamic(d))) && d.0@ == cs.subrange(i, name_end_at(cs, i)),
{
    lemma_name_end_bounds(cs, i);
    let j = name_end_at(cs, i);
    let w = cs.subrange(i, j);
    assert(w.len() > 0);
    assert(cs[i] == w[0]);
    assert(cs[i] == 'p' || cs[i] == 'm' || cs[i] == 'f');
    assert(is_dynamic_word(w));
}

/// A run of name characters to the end of the text declares nothing.
proof fn lemma_names_to_end_undeclared(cs: Seq<char>, j: int)
    requires
        0 <= j <= cs.len(),
        all_name_chars(cs, j, cs.len() as int),
    ensures
        declared_at(cs, j) is None,
    decreases cs.len() - j,
{
    if j < cs.len() {
        assert(is_name_char(cs[j]));
        lemma_names_to_end_undeclared(cs, j + 1);
    }
}

/// A text that is one dynamic marking alone reads, whatever the nesting
/// allowed, as exactly that marking: one dynamic holding the whole text.
pub proof fn law_lone_marking_reads_as_dynamic(cs: Seq<char>, depth: nat, v: Seq<ExpV>)
    requires
        ({
            ||| cs == seq!['p', 'p', 'p']
            ||| cs == seq!['p', 'p']
            ||| cs == seq!['p']
            ||| cs == seq!['m', 'p']
            ||| cs == seq!['m', 'f']
            ||| cs == seq!['f']
            ||| cs == seq!['f', 'f']
            ||| cs == seq!['f', 'f', 'f']
        }),
        exps_values(cs, 0, None, depth, v),
    ensures
        exps_outcome(cs, 0, 0, None, depth) == Ok::<int, ParseError>(cs.len() as int),
        v.len() == 1,
        v[0] matches ExpV::Simple(SimpleV::Scalar(Scalar::Dynamic(d))) && d.0@ == cs,
{
    let n = cs.len() as int;
    assert(0 < n <= 3);
    assert(all_name_chars(cs, 0, n)) by {
        assert forall|k: int| 0 <= k < n implies #[trigger] is_name_char(cs[k]) by {
            assert(cs[k] == 'p' || cs[k] == 'm' || cs[k] == 'f');
        }
    }
    lemma_name_end(cs, 0, n);
    lemma_names_to_end_undeclared(cs, 0);
    assert(skipped(cs, 0, false) == 0) by {
        assert(!is_blank(cs[0]) && cs[0] != '-');
    }
    assert(skipped(cs, n, false) == n);
    assert(cs.subrange(0, n) =~= cs);
    lemma_word_outcome(cs, 0, depth);
    law_dynamic_markings_read_as_dynamics(cs, 0, depth, v[0]);
    assert(exps_values(cs, n, None, depth, v.drop_first()));
    assert(exps_outcome(cs, 0, n, None, depth) == Ok::<int, ParseError>(n));
}

/// A word that starts with `p`, `m` or `f` and declares nothing is read up
/// to the end of its run of name characters.
proof fn lemma_word_outcome(cs: Seq<char>, i: int, depth: nat)
    requires
        0 <= i < cs.len(),
        cs[i] == 'p' || cs[i] == 'm' || cs[i] == 'f',
        declared_at(cs, i) is None,
    ensures
        exp_outcome(cs, i, depth) == Ok::<int, ParseError>(name_end_at(cs, i)),
{
    assert(symbol_at(cs, i) is None);
    assert(!is_digit(cs[i]));
    assert(is_name_start(cs[i]));
}

/// Where the expression read at `i` ends, or why it cannot be read, with
/// groups and declarations nested at most `depth` deep: a group ends after
/// its closing bracket; a number takes what directly follows it; then come
/// relative numbers, durations, programs, operators and symbols, declarations
/// `name: exp` and words.
pub open spec fn exp_outcome(cs: Seq<char>, i: int, depth: nat) -> Result<int, ParseError>
    decreases depth, 0nat, 0int,
{
    let n = cs.len();
    let c = cs[i];
    if c == '(' || c == '{' || c == '[' {
        if depth == 0 {
            Err(ParseError::TooDeep(i as usize))
        } else {
            exps_outcome(cs, i + 1, i + 1, Some(closer(c)), (depth - 1) as nat)
        }
    } else if is_digit(c) {
        match number_result(cs, i) {
            Err(x) => Err(x),
            Ok((a, j)) => match number_exp(cs, a, j) {
                Err(x) => Err(x),
                Ok((_, k)) => Ok(k),
            },
        }
    } else if (c == '+' || c == '-') && i + 1 < n && is_digit(cs[i + 1]) {
        match number_result(cs, i + 1) {
            Err(x) => Err(x),
            Ok((_, j)) => Ok(j),
        }
    } else if c == 'd' && i + 1 < n && is_digit(cs[i + 1]) {
        match duration_exp(cs, i + 1) {
            Err(x) => Err(x),
            Ok((_, j)) => Ok(j),
        }
    } else if c == '#' && i + 1 < n && is_digit(cs[i + 1]) {
        match number_result(cs, i + 1) {
            Err(x) => Err(x),
            Ok((a, j)) => match a {
                Absolute::UInt(p) => if p <= 255 {
                    Ok(j)
                } else {
                    Err(ParseError::TooLarge(i as usize))
                },
                Absolute::Float(_) => Err(ParseError::Unexpected(i as usize)),
            },
        }
    } else if symbol_at(cs, i) is Some {
        let (_, k) = symbol_at(cs, i)->0;
        Ok(i + k)
    } else if is_name_start(c) {
        match declared_at(cs, i) {
            Some(colon) => if depth == 0 {
                Err(ParseError::TooDeep(i as usize))
            } else {
                let k = skipped(cs, colon + 1, false);
                if k >= n || is_closing(cs[k]) {
                    Err(ParseError::Unexpected(colon as usize))
                } else {
                    exp_outcome(cs, k, (depth - 1) as nat)
                }
            },
            None => Ok(name_end_at(cs, i)),
        }
    } else {
        Err(ParseError::Unexpected(i as usize))
    }
}

/// Where the expressions read from `j` end, after the closing bracket
/// `close` of a group opened at `start` (at the end of the text when there is
/// none), or why they cannot be read: blanks and comments separate them; a
/// closing bracket of another kind, or the end of the text inside a group,
/// stops reading. Each expression read moves on.
pub open spec fn exps_outcome(cs: Seq<char>, start: int, j: int, close: Option<char>, depth: nat) -> Result<int, ParseError>
    decreases depth, 1nat, cs.len() - j,
{
    let k = skipped(cs, j, false);
    if k >= cs.len() {
        match close {
            Some(_) => Err(ParseError::Unclosed(start as usize)),
            None => Ok(k),
        }
    } else if close == Some(cs[k]) {
        Ok(k + 1)
    } else if is_closing(cs[k]) {
        Err(ParseError::Unexpected(k as usize))
    } else {
        match exp_outcome(cs, k, depth) {
            Err(x) => Err(x),
            Ok(next) => if j < next <= cs.len() {
                exps_outcome(cs, start, next, close, depth)
            } else {
                Err(ParseError::Unexpected(k as usize))
            },
        }
    }
}

/// `e` is the expression read at `i`, where it can be read: the group of
/// the expressions inside the brackets, the number with what follows it, the
/// relative number, duration, program, operator or symbol, the declaration
/// binding the words before `:` to the expression after it, or the word.
pub open spec fn exp_value(cs: Seq<char>, i: int, depth: nat, e: ExpV) -> bool
    decreases depth, 0nat, 0int,
{
    let n = cs.len();
    let c = cs[i];
    if c == '(' || c == '{' || c == '[' {
        if depth == 0 {
            false
        } else {
            match e {
                ExpV::Compound(CompoundV::Parens(v)) => c == '(' && exps_values(cs, i + 1, Some(')'), (depth - 1) as nat, v),
                ExpV::Compound(CompoundV::Braces(v)) => c == '{' && exps_values(cs, i + 1, Some('}'), (depth - 1) as nat, v),
                ExpV::Compound(CompoundV::Brackets(v)) => c == '[' && exps_values(cs, i + 1, Some(']'), (depth - 1) as nat, v),
                _ => false,
            }
        }
    } else if is_digit(c) {
        match number_result(cs, i) {
            Err(_) => false,
            Ok((a, j)) => match number_exp(cs, a, j) {
                Err(_) => false,
                Ok((v, _)) => e == v,
            },
        }
    } else if (c == '+' || c == '-') && i + 1 < n && is_digit(cs[i + 1]) {
        match number_result(cs, i + 1) {
            Err(_) => false,
            Ok((a, _)) => e == scalar_exp(
                Scalar::Pure(Pure::Relative(Relative { sign: if c == '+' { Sign::Plus } else { Sign::Minus }, val: a })),
            ),
        }
    } else if c == 'd' && i + 1 < n && is_digit(cs[i + 1]) {
        match duration_exp(cs, i + 1) {
            Err(_) => false,
            Ok((v, _)) => e == v,
        }
    } else if c == '#' && i + 1 < n && is_digit(cs[i + 1]) {
        match number_result(cs, i + 1) {
            Ok((Absolute::UInt(p), _)) => p <= 255 && e == scalar_exp(Scalar::Prog(Prog(p as u8))),
            _ => false,
        }
    } else if symbol_at(cs, i) is Some {
        let (sym, _) = symbol_at(cs, i)->0;
        e == ExpV::Simple(sym)
    } else if is_name_start(c) {
        match declared_at(cs, i) {
            Some(colon) => {
                let k = skipped(cs, colon + 1, false);
                &&& depth > 0
                &&& e matches ExpV::Simple(SimpleV::Decl(DeclV::ExpDecl(id, b)))
                &&& id.0@ == cs.subrange(i, colon)
                &&& exp_value(cs, k, (depth - 1) as nat, *b)
            },
            None => word_value(cs, i, name_end_at(cs, i), e),
        }
    } else {
        false
    }
}

/// `v` are the expressions read from `j` up to `close`, where they can be
/// read.
pub open spec fn exps_values(cs: Seq<char>, j: int, close: Option<char>, depth: nat, v: Seq<ExpV>) -> bool
    decreases depth, 1nat, cs.len() - j,
{
    let k = skipped(cs, j, false);
    if k >= cs.len() || close == Some(cs[k]) {
        v.len() == 0
    } else {
        &&& v.len() > 0
        &&& exp_value(cs, k, depth, v[0])
        &&& match exp_outcome(cs, k, depth) {
            Ok(next) => j < next <= cs.len() && exps_values(cs, next, close, depth, v.drop_first()),
            Err(_) => false,
        }
    }
}

/// A simple expression of one kind.
fn simple(s: Simple) -> (r: Exp)
    ensures
        r == Exp::Simple(s),
{
    Exp::Simple(s)
}

/// What reading one expression at `i` gave agrees with the grammar.
pub open spec fn exp_agrees(cs: Seq<char>, i: int, depth: nat, r: Result<(Exp, usize), ParseError>) -> bool {
    match r {
        Ok((e, j)) => exp_outcome(cs, i, depth) == Ok::<int, ParseError>(j as int) && exp_value(cs, i, depth, e@),
        Err(x) => exp_outcome(cs, i, depth) == Err::<int, ParseError>(x),
    }
}

/// Reads the expressions up to `close` (or to the end of the text when there
/// is none), and where reading stopped: after `close`.
fn exps_until(src: &str, cs: &Vec<char>, i: usize, close: Option<char>, depth: usize) -> (r: Result<
    (Vec<Exp>, usize),
    ParseError,
>)
    requires
        cs@ == src@,
        i <= cs@.len(),
    ensures
        r matches Ok((v, j)) ==> exps_outcome(cs@, i as int, i as int, close, depth as nat) == Ok::<int, ParseError>(j as int)
            && exps_values(cs@, i as int, close, depth as nat, view_exps(v@)),
        r matches Err(x) ==> exps_outcome(cs@, i as int, i as int, close, depth as nat) == Err::<int, ParseError>(x),
        r matches Ok((v, j)) ==> i <= j <= cs@.len() && forall|k: int|
            0 <= k < v@.len() ==> exp_wf(#[trigger] view_exps(v@)[k]),
    decreases depth, 2nat,
{
    let mut v: Vec<Exp> = Vec::new();
    let mut j = i;
    proof {
        assert(view_exps(v@) =~= Seq::empty());
        assert forall|w: Seq<ExpV>| #[trigger] exps_values(cs@, j as int, close, depth as nat, w)
            implies exps_values(cs@, i as int, close, depth as nat, view_exps(v@) + w) by {
            assert(view_exps(v@) + w =~= w);
        }
    }
    loop
        invariant
            cs@ == src@,
            i <= j <= cs@.len(),
            forall|k: int| 0 <= k < v@.len() ==> exp_wf(#[trigger] view_exps(v@)[k]),
            exps_outcome(cs@, i as int, j as int, close, depth as nat) == exps_outcome(cs@, i as int, i as int, close, depth as nat),
            forall|w: Seq<ExpV>| #[trigger] exps_values(cs@, j as int, close, depth as nat, w)
                ==> exps_values(cs@, i as int, close, depth as nat, view_exps(v@) + w),
        decreases cs@.len() - j,
    {
        let j0 = j;
        j = skip_blanks(cs, j);
        if j >= cs.len() {
            proof {
                assert(exps_values(cs@, j0 as int, close, depth as nat, Seq::empty()));
                assert(view_exps(v@) + Seq::<ExpV>::empty() =~= view_exps(v@));
            }
            return match close {
                Some(_) => Err(ParseError::Unclosed(i)),
                None => Ok((v, j)),
            };
        }
        let c = cs[j];
        match close {
            Some(k) => {
                if c == k {
                    proof {
                        assert(exps_values(cs@, j0 as int, close, depth as nat, Seq::empty()));
                        assert(view_exps(v@) + Seq::<ExpV>::empty() =~= view_exps(v@));
                    }
                    return Ok((v, j + 1));
                }
            },
            None => {},
        }
        if c == ')' || c == '}' || c == ']' {
            return Err(ParseError::Unexpected(j));
        }
        let (e, next) = expression(src, cs, j, depth)?;
        let ghost before = v@;
        let ghost old_v = view_exps(v@);
        v.push(e);
        proof {
            lemma_view_exps_push(before, e);
            crate::compiler::codegen::state::lemma_view_exps_len(before);
            assert forall|k: int| 0 <= k < v@.len() implies exp_wf(#[trigger] view_exps(v@)[k]) by {
                if k < before.len() {
                    assert(view_exps(v@)[k] == view_exps(before)[k]);
                }
            }
            assert forall|w: Seq<ExpV>| #[trigger] exps_values(cs@, next as int, close, depth as nat, w)
                implies exps_values(cs@, i as int, close, depth as nat, view_exps(v@) + w) by {
                let w2 = seq![e@] + w;
                assert(w2.drop_first() =~= w);
                assert(w2[0] == e@);
                assert(exps_values(cs@, j0 as int, close, depth as nat, w2));
                assert(old_v + w2 =~= view_exps(v@) + w);
            }
        }
        j = next;
    }
}

/// The operator or symbol that starts at `i`, and how many characters it
/// takes: `~`, `@`, `^`, `><`, `..`, `<`, `>`, `:`, `*`, `/`, and `+` or
/// `-` when no digit follows.
pub open spec fn symbol_at(cs: Seq<char>, i: int) -> Option<(SimpleV, int)> {
    let c = cs[i];
    let next = if i + 1 < cs.len() { Some(cs[i + 1]) } else { None };
    if c == '~' {
        Some((SimpleV::Scalar(Scalar::Rest), 1))
    } else if c == '@' {
        Some((SimpleV::Prefix(Prefix::Reg), 1))
    } else if c == '^' {
        Some((SimpleV::Suffix(Suffix::Amp), 1))
    } else if c == '>' && next == Some('<') {
        Some((SimpleV::Infix(Infix::Intercalate), 2))
    } else if c == '.' && next == Some('.') {
        Some((SimpleV::Infix(Infix::Range), 2))
    } else if c == '<' {
        Some((SimpleV::Infix(Infix::Interpolation(Interpolation::Increase)), 1))
    } else if c == '>' {
        Some((SimpleV::Infix(Infix::Interpolation(Interpolation::Decrease)), 1))
    } else if c == ':' {
        Some((SimpleV::Infix(Infix::Colon), 1))
    } else if c == '*' {
        Some((SimpleV::Infix(Infix::Mul), 1))
    } else if c == '/' {
        Some((SimpleV::Infix(Infix::Div), 1))
    } else if c == '+' && !(next matches Some(d) && is_digit(d)) {
        Some((SimpleV::Infix(Infix::Plus), 1))
    } else if c == '-' && !(next matches Some(d) && is_digit(d)) {
        Some((SimpleV::Infix(Infix::Minus), 1))
    } else {
        None
    }
}

/// The numbers of `p` before those of `r`.
pub open spec fn parts_before(p: Seq<Absolute>, r: Result<(Seq<Absolute>, int), ParseError>) -> Result<
    (Seq<Absolute>, int),
    ParseError,
> {
    match r {
        Ok((rest, e)) => Ok((p + rest, e)),
        Err(x) => Err(x),
    }
}

/// Reads the numbers after `:`s from `j` on, and where they end.
fn ratio_rest(cs: &Vec<char>, j: usize) -> (r: Result<(Vec<Absolute>, usize), ParseError>)
    requires
        j <= cs@.len(),
    ensures
        r matches Ok((v, e)) ==> ratio_read(cs@, j as int) == Ok::<(Seq<Absolute>, int), ParseError>((v@, e as int))
            && j <= e <= cs@.len() && forall|m: int| 0 <= m < v@.len() ==> (#[trigger] v@[m]).wf(),
        r matches Err(x) ==> ratio_read(cs@, j as int) == Err::<(Seq<Absolute>, int), ParseError>(x),
{
    let n = cs.len();
    let mut parts: Vec<Absolute> = Vec::new();
    let mut k = j;
    proof {
        assert(parts_before(parts@, ratio_read(cs@, k as int)) =~= ratio_read(cs@, j as int)) by {
            if let Ok((rest, e)) = ratio_read(cs@, k as int) {
                assert(parts@ + rest =~= rest);
            }
        }
    }
    while k < n && k + 1 < n && cs[k] == ':' && digit(cs[k + 1])
        invariant
            n == cs@.len(),
            j <= k <= n,
            ratio_read(cs@, j as int) == parts_before(parts@, ratio_read(cs@, k as int)),
            forall|m: int| 0 <= m < parts@.len() ==> (#[trigger] parts@[m]).wf(),
        decreases n - k,
    {
        let (b, e) = number(cs, k + 1)?;
        proof {
            lemma_number_moves(cs@, k + 1);
            if let Ok((rest, end)) = ratio_read(cs@, e as int) {
                assert(parts@ + (seq![b] + rest) =~= parts@.push(b) + rest);
            }
        }
        parts.push(b);
        k = e;
    }
    proof {
        assert(parts@ + Seq::<Absolute>::empty() =~= parts@);
    }
    Ok((parts, k))
}

/// Reads the number at `i`, a digit, with what directly follows it.
fn number_exp_at(cs: &Vec<char>, i: usize, Ghost(depth): Ghost<nat>) -> (r: Result<(Exp, usize), ParseError>)
    requires
        i < cs@.len(),
        is_digit(cs@[i as int]),
    ensures
        exp_agrees(cs@, i as int, depth, r),
        r matches Ok((e, j)) ==> i < j <= cs@.len() && exp_wf(e@),
        r matches Ok((e, j)) ==> (e@ matches ExpV::Simple(SimpleV::Scalar(Scalar::Pure(Pure::Absolute(a))))
            ==> number_at(cs@, i as int, j as int, a)),
{
    let n = cs.len();
    let (a, j) = number(cs, i)?;
    if j < n && cs[j] == '\'' {
        let mut k = j + 1;
        let mut seconds = Absolute::UInt(0);
        if k < n && digit(cs[k]) {
            let (s, e) = number(cs, k)?;
            if e < n && cs[e] == '"' {
                seconds = s;
                k = e + 1;
            }
        }
        let fixed = Fixed { minutes: a, seconds };
        return Ok((simple(Simple::Scalar(Scalar::Duration(Duration::Fixed(fixed)))), k));
    }
    if j < n && cs[j] == '"' {
        let fixed = Fixed { minutes: Absolute::UInt(0), seconds: a };
        return Ok((simple(Simple::Scalar(Scalar::Duration(Duration::Fixed(fixed)))), j + 1));
    }
    if j < n && j + 1 < n && cs[j] == 'H' && cs[j + 1] == 'z' && (j + 2 >= n || !name_char(cs[j + 2])) {
        return Ok((simple(Simple::Scalar(Scalar::Frequency(a))), j + 2));
    }
    if j < n && j + 1 < n && cs[j] == ':' && digit(cs[j + 1]) {
        let (rest, k) = ratio_rest(cs, j)?;
        let mut parts: Vec<Absolute> = vec![a];
        let mut m: usize = 0;
        while m < rest.len()
            invariant
                parts@ == seq![a] + rest@.take(m as int),
                m <= rest@.len(),
                a.wf(),
                forall|q: int| 0 <= q < rest@.len() ==> (#[trigger] rest@[q]).wf(),
            decreases rest@.len() - m,
        {
            proof {
                assert(seq![a] + rest@.take(m + 1) =~= (seq![a] + rest@.take(m as int)).push(rest@[m as int]));
            }
            parts.push(rest[m]);
            m = m + 1;
        }
        proof {
            assert(rest@.take(rest@.len() as int) =~= rest@);
            assert forall|q: int| 0 <= q < parts@.len() implies (#[trigger] parts@[q]).wf() by {
                if q > 0 {
                    assert(parts@[q] == rest@[q - 1]);
                }
            }
        }
        return Ok((Exp::Compound(Compound::Ratio(parts)), k));
    }
    Ok((simple(Simple::Scalar(Scalar::Pure(Pure::Absolute(a)))), j))
}

/// Reads `+<n>` or `-<n>` at `i`, a relative number.
fn relative_at(cs: &Vec<char>, i: usize, Ghost(depth): Ghost<nat>) -> (r: Result<(Exp, usize), ParseError>)
    requires
        cs@.len() <= usize::MAX,
        i + 1 < cs@.len(),
        cs@[i as int] == '+' || cs@[i as int] == '-',
        is_digit(cs@[i + 1]),
    ensures
        exp_agrees(cs@, i as int, depth, r),
        r matches Ok((e, j)) ==> i < j <= cs@.len() && exp_wf(e@),
{
    let (a, j) = number(cs, i + 1)?;
    let sign = if cs[i] == '+' {
        Sign::Plus
    } else {
        Sign::Minus
    };
    Ok((simple(Simple::Scalar(Scalar::Pure(Pure::Relative(Relative { sign, val: a })))), j))
}

/// Reads the duration after `d` at `i`.
fn duration_at(cs: &Vec<char>, i: usize, Ghost(depth): Ghost<nat>) -> (r: Result<(Exp, usize), ParseError>)
    requires
        cs@.len() <= usize::MAX,
        i + 1 < cs@.len(),
        cs@[i as int] == 'd',
        is_digit(cs@[i + 1]),
    ensures
        exp_agrees(cs@, i as int, depth, r),
        r matches Ok((e, j)) ==> i < j <= cs@.len() && exp_wf(e@),
{
    let n = cs.len();
    let (a, j) = number(cs, i + 1)?;
    if j < n && j + 1 < n && (cs[j] == ':' || cs[j] == '/') && digit(cs[j + 1]) {
        let (b, e) = number(cs, j + 1)?;
        let fractional = if cs[j] == ':' {
            Fractional::Tuplet(Tuplet { lhs: a, rhs: b })
        } else {
            Fractional::Rational(Rational { num: a, den: b })
        };
        return Ok((simple(Simple::Scalar(Scalar::Duration(Duration::Fractional(fractional)))), e));
    }
    Ok((simple(Simple::Scalar(Scalar::Duration(Duration::Fractional(Fractional::Absolute(a))))), j))
}

/// Reads the program `#<n>` at `i`.
fn program_at(cs: &Vec<char>, i: usize, Ghost(depth): Ghost<nat>) -> (r: Result<(Exp, usize), ParseError>)
    requires
        cs@.len() <= usize::MAX,
        i + 1 < cs@.len(),
        cs@[i as int] == '#',
        is_digit(cs@[i + 1]),
    ensures
        exp_agrees(cs@, i as int, depth, r),
        r matches Ok((e, j)) ==> i < j <= cs@.len() && exp_wf(e@),
{
    let (a, j) = number(cs, i + 1)?;
    match a {
        Absolute::UInt(p) => if p <= 255 {
            Ok((simple(Simple::Scalar(Scalar::Prog(Prog(p as u8)))), j))
        } else {
            Err(ParseError::TooLarge(i))
        },
        Absolute::Float(_) => Err(ParseError::Unexpected(i)),
    }
}

/// The operator or symbol at `i`, as `symbol_at` reads it.
fn symbol_exp(cs: &Vec<char>, i: usize) -> (r: Option<(Exp, usize)>)
    requires
        i < cs@.len(),
    ensures
        r matches Some((e, j)) ==> symbol_at(cs@, i as int) matches Some((sym, k)) && e@ == ExpV::Simple(sym) && j == i + k,
        r is None ==> symbol_at(cs@, i as int) is None,
{
    let c = cs[i];
    let n = cs.len();
    let next_digit = i + 1 < n && digit(cs[i + 1]);
    if c == '~' {
        Some((simple(Simple::Scalar(Scalar::Rest)), i + 1))
    } else if c == '@' {
        Some((simple(Simple::Prefix(Prefix::Reg)), i + 1))
    } else if c == '^' {
        Some((simple(Simple::Suffix(Suffix::Amp)), i + 1))
    } else if c == '>' && i + 1 < n && cs[i + 1] == '<' {
        Some((simple(Simple::Infix(Infix::Intercalate)), i + 2))
    } else if c == '.' && i + 1 < n && cs[i + 1] == '.' {
        Some((simple(Simple::Infix(Infix::Range)), i + 2))
    } else if c == '<' {
        Some((simple(Simple::Infix(Infix::Interpolation(Interpolation::Increase))), i + 1))
    } else if c == '>' {
        Some((simple(Simple::Infix(Infix::Interpolation(Interpolation::Decrease))), i + 1))
    } else if c == ':' {
        Some((simple(Simple::Infix(Infix::Colon)), i + 1))
    } else if c == '*' {
        Some((simple(Simple::Infix(Infix::Mul)), i + 1))
    } else if c == '/' {
        Some((simple(Simple::Infix(Infix::Div)), i + 1))
    } else if c == '+' && !next_digit {
        Some((simple(Simple::Infix(Infix::Plus)), i + 1))
    } else if c == '-' && !next_digit {
        Some((simple(Simple::Infix(Infix::Minus)), i + 1))
    } else {
        None
    }
}

/// Whether the word from `i` to `j` is a dynamic marking.
fn is_dynamic(cs: &Vec<char>, i: usize, j: usize) -> (r: bool)
    requires
        i <= j <= cs@.len(),
    ensures
        r == is_dynamic_word(cs@.subrange(i as int, j as int)),
{
    proof {
        reveal_strlit("ppp");
        reveal_strlit("pp");
        reveal_strlit("p");
        reveal_strlit("mp");
        reveal_strlit("mf");
        reveal_strlit("f");
        reveal_strlit("ff");
        reveal_strlit("fff");
        assert("ppp"@ =~= seq!['p', 'p', 'p']);
        assert("pp"@ =~= seq!['p', 'p']);
        assert("p"@ =~= seq!['p']);
        assert("mp"@ =~= seq!['m', 'p']);
        assert("mf"@ =~= seq!['m', 'f']);
        assert("f"@ =~= seq!['f']);
        assert("ff"@ =~= seq!['f', 'f']);
        assert("fff"@ =~= seq!['f', 'f', 'f']);
    }
    word_at(cs, i, j, "ppp") || word_at(cs, i, j, "pp") || word_at(cs, i, j, "p") || word_at(cs, i, j, "mp")
        || word_at(cs, i, j, "mf") || word_at(cs, i, j, "f") || word_at(cs, i, j, "ff") || word_at(cs, i, j, "fff")
}

/// Reads what starts with a letter or `_` at `i`: a declaration `name: exp`,
/// or a word.
fn name_at(src: &str, cs: &Vec<char>, i: usize, depth: usize) -> (r: Result<(Exp, usize), ParseError>)
    requires
        cs@ == src@,
        i < cs@.len(),
        is_name_start(cs@[i as int]),
        !(cs@[i as int] == 'd' && i + 1 < cs@.len() && is_digit(cs@[i + 1])),
    ensures
        exp_agrees(cs@, i as int, depth as nat, r),
        r matches Ok((e, j)) ==> i < j <= cs@.len() && exp_wf(e@),
    decreases depth, 0nat,
{
    let n = cs.len();
    match declared_name_end(cs, i) {
        Some(colon) => {
            if depth == 0 {
                return Err(ParseError::TooDeep(i));
            }
            let ident = Ident(src.substring_char(i, colon).to_owned());
            let k = skip_blanks(cs, colon + 1);
            if k >= n || cs[k] == ')' || cs[k] == '}' || cs[k] == ']' {
                return Err(ParseError::Unexpected(colon));
            }
            let (binding, j) = expression(src, cs, k, depth - 1)?;
            let ghost b = binding@;
            let decl = Decl::ExpDecl(ExpDecl { ident, binding: Box::new(binding) });
            let e = simple(Simple::Decl(decl));
            proof {
                assert(e@ == ExpV::Simple(SimpleV::Decl(crate::compiler::ast::view_decl(decl))));
                assert(exp_wf(b));
            }
            Ok((e, j))
        },
        None => {
            let j = name_end(cs, i);
            proof {
                reveal_strlit("bpm");
                reveal_strlit("Hz");
                assert("bpm"@ =~= seq!['b', 'p', 'm']);
                assert("Hz"@ =~= seq!['H', 'z']);
            }
            if word_at(cs, i, j, "bpm") {
                return Ok((simple(Simple::Suffix(Suffix::Bpm)), j));
            }
            if word_at(cs, i, j, "Hz") {
                return Ok((simple(Simple::Suffix(Suffix::Freq)), j));
            }
            if is_dynamic(cs, i, j) {
                let marking = src.substring_char(i, j).to_owned();
                return Ok((simple(Simple::Scalar(Scalar::Dynamic(Dynamic(marking)))), j));
            }
            let name = src.substring_char(i, j).to_owned();
            Ok((simple(Simple::Ident(Ident(name))), j))
        },
    }
}

/// Reads the group that the bracket at `i` opens.
fn group_at(src: &str, cs: &Vec<char>, i: usize, depth: usize) -> (r: Result<(Exp, usize), ParseError>)
    requires
        cs@ == src@,
        i < cs@.len(),
        cs@.len() <= usize::MAX,
        cs@[i as int] == '(' || cs@[i as int] == '{' || cs@[i as int] == '[',
    ensures
        exp_agrees(cs@, i as int, depth as nat, r),
        r matches Ok((e, j)) ==> i < j <= cs@.len() && exp_wf(e@),
    decreases depth, 0nat,
{
    let c = cs[i];
    if depth == 0 {
        return Err(ParseError::TooDeep(i));
    }
    let close = if c == '(' {
        ')'
    } else if c == '{' {
        '}'
    } else {
        ']'
    };
    let (v, j) = exps_until(src, cs, i + 1, Some(close), depth - 1)?;
    let compound = if c == '(' {
        Compound::Parens(v)
    } else if c == '{' {
        Compound::Braces(v)
    } else {
        Compound::Brackets(v)
    };
    proof {
        assert(view_exps(v@).len() == v@.len()) by {
            crate::compiler::codegen::state::lemma_view_exps_len(v@);
        }
    }
    Ok((Exp::Compound(compound), j))
}

/// Reads one expression that starts at `i`, at neither a blank nor a closing
/// bracket, and where it ends.
pub fn expression(src: &str, cs: &Vec<char>, i: usize, depth: usize) -> (r: Result<(Exp, usize), ParseError>)
    requires
        cs@ == src@,
        i < cs@.len(),
    ensures
        exp_agrees(cs@, i as int, depth as nat, r),
        r matches Ok((e, j)) ==> i < j <= cs@.len() && exp_wf(e@),
        symbol_at(cs@, i as int) matches Some((s, k)) ==> (r matches Ok((e, j)) && e@ == ExpV::Simple(s) && j
            == i + k),
        r matches Ok((e, j)) ==> (is_digit(cs@[i as int]) ==> (e@ matches ExpV::Simple(
            SimpleV::Scalar(Scalar::Pure(Pure::Absolute(a))),
        ) ==> number_at(cs@, i as int, j as int, a))),
    decreases depth, 1nat,
{
    let c = cs[i];
    let n = cs.len();
    if c == '(' || c == '{' || c == '[' {
        return group_at(src, cs, i, depth);
    }
    if digit(c) {
        return number_exp_at(cs, i, Ghost(depth as nat));
    }
    if (c == '+' || c == '-') && i + 1 < n && digit(cs[i + 1]) {
        return relative_at(cs, i, Ghost(depth as nat));
    }
    if c == 'd' && i + 1 < n && digit(cs[i + 1]) {
        return duration_at(cs, i, Ghost(depth as nat));
    }
    if c == '#' && i + 1 < n && digit(cs[i + 1]) {
        return program_at(cs, i, Ghost(depth as nat));
    }
    match symbol_exp(cs, i) {
        Some(found) => {
            return Ok(found);
        },
        None => {},
    }
    if name_start(c) {
        return name_at(src, cs, i, depth);
    }
    Err(ParseError::Unexpected(i))
}

/// Reads a whole program: the expressions of the text, as the grammar
/// reads them, or why the text cannot be read.
pub fn parse_program(src: &str) -> (r: Result<Program, ParseError>)
    ensures
        r matches Ok(p) ==> exps_outcome(src@, 0, 0, None, MAX_NESTING as nat) is Ok && exps_values(
            src@,
            0,
            None,
            MAX_NESTING as nat,
            view_exps(p.exps@),
        ),
        r matches Err(x) ==> exps_outcome(src@, 0, 0, None, MAX_NESTING as nat) == Err::<int, ParseError>(x),
        r matches Ok(p) ==> forall|k: int| 0 <= k < p.exps@.len() ==> exp_wf(#[trigger] view_exps(p.exps@)[k]),
{
    let cs = chars_of(src);
    let (exps, _) = exps_until(src, &cs, 0, None, MAX_NESTING)?;
    Ok(Program { exps })
}

} // verus!
