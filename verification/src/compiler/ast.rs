//! The syntax tree of a DSCH program.
use crate::compiler::codegen::fraction::{mul_wide, Fraction};
use crate::compiler::codegen::{Prog, Register, Scope};
use vstd::prelude::*;

verus! {

/// A whole program: the expressions at its top level, in order.
#[derive(Debug)]
pub struct Program {
    pub exps: Vec<Exp>,
}

/// An expression.
#[derive(Debug)]
pub enum Exp {
    Compound(Compound),
    Simple(Simple),
    Decl(Decl),
    Noop,
    EOI,
}

/// A tempo in beats per minute.
#[derive(Debug, Clone, Copy)]
pub struct Bpm(pub Absolute);

/// A declaration.
#[derive(Debug)]
pub enum Decl {
    ImportDecl(ImportDecl),
    ExpDecl(ExpDecl),
    FuncDecl(FuncDecl),
}

/// An import of the named module.
#[derive(Debug)]
pub struct ImportDecl(Ident);

/// A function with its parameters and body.
#[derive(Debug)]
pub struct FuncDecl {
    pub ident: Ident,
    pub params: Vec<Ident>,
    pub funcdef: Vec<Exp>,
}

/// `ident: binding`.
#[derive(Debug)]
pub struct ExpDecl {
    pub ident: Ident,
    pub binding: Box<Exp>,
}

/// An expression that is not a group.
#[derive(Debug)]
pub enum Simple {
    Prefix(Prefix),
    Scalar(Scalar),
    Infix(Infix),
    Suffix(Suffix),
    Decl(Decl),
    Ident(Ident),
}

/// A group: `( .. )` plays in order, `{ .. }` at once, `[ .. ]` is a set,
/// `a:b:c` a ratio.
#[derive(Debug)]
pub enum Compound {
    Parens(Vec<Exp>),
    Braces(Vec<Exp>),
    Brackets(Vec<Exp>),
    Ratio(Vec<Absolute>),
}

/// A value.
#[derive(Debug)]
pub enum Scalar {
    Duration(Duration),
    Frequency(Absolute),
    Pure(Pure),
    Dynamic(Dynamic),
    Tuplet(Tuplet),
    Prog(Prog),
    Register(Register),
    Rest,
}

/// A dynamic marking such as `pp` or `mf`.
#[derive(Debug)]
pub struct Dynamic(pub String);

/// A frequency.
#[derive(Debug)]
pub struct Frequency(pub Pure);

/// A binary operator.
#[derive(Debug, Clone, Copy, PartialEq, Eq, Structural)]
pub enum Infix {
    Colon,
    Intercalate,
    Range,
    Interpolation(Interpolation),
    Plus,
    Minus,
    Mul,
    Div,
}

/// An inclusive range between two expressions.
#[derive(Debug)]
pub struct Range {
    pub start: Exp,
    pub end: Exp,
}

/// A name.
#[derive(Debug, PartialEq, Eq, PartialOrd, Ord, Hash)]
pub struct Ident(pub String);

/// The direction of an interpolation: `<` rises, `>` falls.
#[derive(Debug, Clone, Copy, PartialEq, Eq, Structural)]
pub enum Interpolation {
    Increase,
    Decrease,
}

/// A prefix operator: `d` duration, `@` register, `#` program.
#[derive(Debug, Clone, Copy, PartialEq, Eq, Structural)]
pub enum Prefix {
    Dur,
    Reg,
    Prog,
}

/// A suffix operator: `^` amplitude, `bpm` tempo, `Hz` frequency.
#[derive(Debug, Clone, Copy, PartialEq, Eq, Structural)]
pub enum Suffix {
    Amp,
    Bpm,
    Freq,
}

/// A duration: fixed in clock time, or a fraction of a whole note.
#[derive(Debug, Clone, Copy)]
pub enum Duration {
    Fixed(Fixed),
    Fractional(Fractional),
}

/// `minutes' seconds"`.
#[derive(Debug, Clone, Copy)]
pub struct Fixed {
    pub minutes: Absolute,
    pub seconds: Absolute,
}

/// `d<n>`, `d<a>:<b>` or `d<a>/<b>`.
#[derive(Debug, Clone, Copy)]
pub enum Fractional {
    Absolute(Absolute),
    Tuplet(Tuplet),
    Rational(Rational),
}

/// `num / den`.
#[derive(Debug, Clone, Copy)]
pub struct Rational {
    pub num: Absolute,
    pub den: Absolute,
}

/// `lhs` notes in the time of `rhs`.
#[derive(Debug, Clone, Copy)]
pub struct Tuplet {
    pub lhs: Absolute,
    pub rhs: Absolute,
}

/// A number of minutes.
#[derive(Debug, Clone, Copy)]
pub struct Minutes(pub Pure);

/// A number of seconds.
#[derive(Debug, Clone, Copy)]
pub struct Seconds(pub Pure);

/// A bare number.
#[derive(Debug, Clone, Copy)]
pub enum Pure {
    Relative(Relative),
    Absolute(Absolute),
    Rational(Rational),
}

/// `+n` or `-n`.
#[derive(Debug, Clone, Copy)]
pub struct Relative {
    pub sign: Sign,
    pub val: Absolute,
}

/// An unsigned number as written: an integer, or a decimal held exactly as a
/// fraction.
#[derive(Debug, Clone, Copy)]
pub enum Absolute {
    UInt(u64),
    Float(Fraction),
}

/// The sign of a relative number.
#[derive(Debug, Clone, Copy, PartialEq, Eq, Structural)]
pub enum Sign {
    Plus,
    Minus,
}

/// `numer / denom` rounded to the nearest integer, halves away from zero.
pub open spec fn round_div(numer: int, denom: int) -> int {
    (2 * numer + denom) / (2 * denom)
}

impl Absolute {
    /// The number is well formed: a decimal has a nonzero denominator.
    pub open spec fn wf(self) -> bool {
        match self {
            Absolute::UInt(_) => true,
            Absolute::Float(f) => f.wf(),
        }
    }

    /// The number rounded to the nearest integer.
    pub open spec fn spec_round(self) -> int {
        match self {
            Absolute::UInt(n) => n as int,
            Absolute::Float(f) => round_div(f.numer as int, f.denom as int),
        }
    }

    /// The number as a fraction.
    pub open spec fn spec_fraction(self) -> Fraction {
        match self {
            Absolute::UInt(n) => Fraction { numer: n, denom: 1 },
            Absolute::Float(f) => f,
        }
    }

    /// The number rounded to the nearest integer.
    pub fn as_u64(&self) -> (r: u64)
        requires
            self.wf(),
        ensures
            r == self.spec_round(),
    {
        match self {
            Absolute::UInt(n) => *n,
            Absolute::Float(f) => {
                let n = 2 * (f.numer as u128) + (f.denom as u128);
                let d = 2 * (f.denom as u128);
                proof {
                    assert(n / d <= f.numer as int) by (nonlinear_arith)
                        requires
                            n == 2 * f.numer + f.denom,
                            d == 2 * f.denom,
                            f.denom > 0,
                    ;
                }
                (n / d) as u64
            },
        }
    }

    /// The number rounded to the nearest integer, as an index.
    pub fn as_usize(&self) -> (r: usize)
        requires
            self.wf(),
            self.spec_round() <= usize::MAX,
        ensures
            r == self.spec_round(),
    {
        self.as_u64() as usize
    }

    /// The number as a fraction.
    pub fn as_fraction(&self) -> (r: Fraction)
        ensures
            r == self.spec_fraction(),
    {
        match self {
            Absolute::UInt(n) => Fraction::from_integer(*n),
            Absolute::Float(f) => *f,
        }
    }

    /// Integer quotient of the two numbers rounded: `(a * 100) / (b * 100)`.
    pub fn div(self, rhs: Absolute) -> (r: Absolute)
        requires
            self.wf(),
            rhs.wf(),
            self.spec_round() * 100 <= u64::MAX,
            rhs.spec_round() * 100 <= u64::MAX,
            rhs.spec_round() > 0,
        ensures
            r == Absolute::UInt(((self.spec_round() * 100) / (rhs.spec_round() * 100)) as u64),
    {
        Absolute::UInt((self.as_u64() * 100) / (rhs.as_u64() * 100))
    }

    /// `self * rhs`, rounded to the nearest integer and capped at `u64::MAX`.
    pub fn mul_u64(self, rhs: u64) -> (r: u64)
        requires
            self.wf(),
            self matches Absolute::UInt(n) ==> n * rhs <= u64::MAX,
        ensures
            r == if round_div(self.spec_fraction().numer * rhs, self.spec_fraction().denom as int)
                > u64::MAX {
                u64::MAX as int
            } else {
                round_div(self.spec_fraction().numer * rhs, self.spec_fraction().denom as int)
            },
    {
        match self {
            Absolute::UInt(uint) => {
                proof {
                    assert(round_div(uint * rhs, 1) == uint * rhs) by (nonlinear_arith);
                }
                uint * rhs
            },
            Absolute::Float(f) => {
                let q = mul_wide(f.numer, rhs);
                let d = f.denom as u128;
                let whole = q / d;
                let rem = q % d;
                let up: u128 = if 2 * rem >= d {
                    1
                } else {
                    0
                };
                proof {
                    assert(whole + up == round_div(q as int, d as int)) by (nonlinear_arith)
                        requires
                            whole == q / d,
                            rem == q % d,
                            d > 0,
                            up == (if 2 * rem >= d {
                                1int
                            } else {
                                0
                            }),
                    ;
                    assert(whole <= q) by (nonlinear_arith)
                        requires
                            whole == q / d,
                            d > 0,
                            q >= 0,
                    ;
                }
                if whole >= u64::MAX as u128 {
                    u64::MAX
                } else {
                    (whole + up) as u64
                }
            },
        }
    }
}

/// The expressions of a group, in order; a ratio holds none.
pub open spec fn compound_exps(c: CompoundV) -> Seq<ExpV> {
    match c {
        CompoundV::Parens(v) => v,
        CompoundV::Braces(v) => v,
        CompoundV::Brackets(v) => v,
        CompoundV::Ratio(_) => Seq::empty(),
    }
}

impl Prefix {
    /// The prefix that the expression is, if it is one.
    pub fn unwrap(exp: Exp) -> (r: Option<Prefix>)
        ensures
            r == (match exp {
                Exp::Simple(Simple::Prefix(p)) => Some(p),
                _ => None,
            }),
    {
        match exp {
            Exp::Simple(Simple::Prefix(p)) => Some(p),
            _ => None,
        }
    }
}

impl Compound {
    /// The group as an expression.
    pub fn to_exp(self) -> (r: Exp)
        ensures
            r@ == ExpV::Compound(view_compound(self)),
    {
        Exp::Compound(self)
    }

    /// The expressions of the group, in order; a ratio holds none.
    pub fn to_vecdeque(&self) -> (r: Vec<Exp>)
        ensures
            view_exps(r@) == compound_exps(view_compound(*self)),
    {
        match self {
            Compound::Parens(v) => clone_exps(v),
            Compound::Braces(v) => clone_exps(v),
            Compound::Brackets(v) => clone_exps(v),
            Compound::Ratio(_) => {
                let r: Vec<Exp> = Vec::new();
                proof {
                    assert(view_exps(r@) =~= Seq::empty());
                }
                r
            },
        }
    }

    /// The scope that the group opens.
    pub fn scope(&self) -> (r: Scope)
        ensures
            r == match self {
                Compound::Parens(_) => Scope::Sequence,
                Compound::Braces(_) => Scope::Stack,
                Compound::Brackets(_) => Scope::Unordered,
                Compound::Ratio(_) => Scope::Nothing,
            },
    {
        match self {
            Compound::Parens(_) => Scope::Sequence,
            Compound::Braces(_) => Scope::Stack,
            Compound::Brackets(_) => Scope::Unordered,
            _ => Scope::Nothing,
        }
    }
}


/// An expression as a mathematical value: lists become sequences.
pub enum ExpV {
    Compound(CompoundV),
    Simple(SimpleV),
    Decl(DeclV),
    Noop,
    EOI,
}

/// A group as a mathematical value.
pub enum CompoundV {
    Parens(Seq<ExpV>),
    Braces(Seq<ExpV>),
    Brackets(Seq<ExpV>),
    Ratio(Seq<Absolute>),
}

/// A simple expression as a mathematical value.
pub enum SimpleV {
    Prefix(Prefix),
    Scalar(Scalar),
    Infix(Infix),
    Suffix(Suffix),
    Decl(DeclV),
    Ident(Ident),
}

/// A declaration as a mathematical value.
pub enum DeclV {
    ImportDecl(ImportDecl),
    ExpDecl(Ident, Box<ExpV>),
    FuncDecl(Ident, Seq<Ident>, Seq<ExpV>),
}

/// The value of an expression.
pub open spec fn view_exp(e: Exp) -> ExpV
    decreases e, 1nat,
{
    match e {
        Exp::Compound(c) => ExpV::Compound(view_compound(c)),
        Exp::Simple(s) => ExpV::Simple(view_simple(s)),
        Exp::Decl(d) => ExpV::Decl(view_decl(d)),
        Exp::Noop => ExpV::Noop,
        Exp::EOI => ExpV::EOI,
    }
}

/// The values of a list of expressions.
pub open spec fn view_exps(v: Seq<Exp>) -> Seq<ExpV>
    decreases v, 0nat,
{
    if v.len() == 0 {
        Seq::empty()
    } else {
        view_exps(v.drop_last()).push(view_exp(v.last()))
    }
}

/// The value of a group.
pub open spec fn view_compound(c: Compound) -> CompoundV
    decreases c, 0nat,
{
    match c {
        Compound::Parens(v) => CompoundV::Parens(view_exps(v@)),
        Compound::Braces(v) => CompoundV::Braces(view_exps(v@)),
        Compound::Brackets(v) => CompoundV::Brackets(view_exps(v@)),
        Compound::Ratio(v) => CompoundV::Ratio(v@),
    }
}

/// The value of a simple expression.
pub open spec fn view_simple(s: Simple) -> SimpleV
    decreases s, 0nat,
{
    match s {
        Simple::Prefix(p) => SimpleV::Prefix(p),
        Simple::Scalar(sc) => SimpleV::Scalar(sc),
        Simple::Infix(i) => SimpleV::Infix(i),
        Simple::Suffix(x) => SimpleV::Suffix(x),
        Simple::Decl(d) => SimpleV::Decl(view_decl(d)),
        Simple::Ident(i) => SimpleV::Ident(i),
    }
}

/// The value of a declaration.
pub open spec fn view_decl(d: Decl) -> DeclV
    decreases d, 0nat,
{
    match d {
        Decl::ImportDecl(i) => DeclV::ImportDecl(i),
        Decl::ExpDecl(e) => DeclV::ExpDecl(e.ident, Box::new(view_exp(*e.binding))),
        Decl::FuncDecl(f) => DeclV::FuncDecl(f.ident, f.params@, view_exps(f.funcdef@)),
    }
}

impl View for Exp {
    type V = ExpV;

    open spec fn view(&self) -> ExpV {
        view_exp(*self)
    }
}

pub proof fn lemma_view_exps_push(v: Seq<Exp>, e: Exp)
    ensures
        view_exps(v.push(e)) == view_exps(v).push(view_exp(e)),
{
    assert(v.push(e).drop_last() =~= v);
}

pub proof fn lemma_view_exps_take(v: Seq<Exp>, w: Seq<Exp>, i: int)
    requires
        0 <= i < v.len(),
        w == v.take(i),
    ensures
        view_exps(v.take(i + 1)) == view_exps(w).push(view_exp(v[i])),
{
    assert(v.take(i + 1) =~= w.push(v[i]));
    lemma_view_exps_push(w, v[i]);
}

/// A copy of an expression.
pub fn clone_exp(e: &Exp) -> (r: Exp)
    ensures
        r@ == e@,
    decreases e, 0nat,
{
    match e {
        Exp::Compound(c) => Exp::Compound(clone_compound(c)),
        Exp::Simple(s) => Exp::Simple(clone_simple(s)),
        Exp::Decl(d) => Exp::Decl(clone_decl(d)),
        Exp::Noop => Exp::Noop,
        Exp::EOI => Exp::EOI,
    }
}

/// A copy of a list of expressions.
pub fn clone_exps(v: &Vec<Exp>) -> (r: Vec<Exp>)
    ensures
        view_exps(r@) == view_exps(v@),
    decreases v, 1nat,
{
    let mut r: Vec<Exp> = Vec::new();
    let mut i: usize = 0;
    while i < v.len()
        invariant
            i <= v@.len(),
            view_exps(r@) == view_exps(v@.take(i as int)),
        decreases v@.len() - i,
    {
        proof {
            assert(decreases_to!(v => v@));
            assert(decreases_to!(v@ => v@[i as int]));
        }
        let e = clone_exp(&v[i]);
        let ghost before = r@;
        r.push(e);
        proof {
            lemma_view_exps_push(before, e);
            lemma_view_exps_take(v@, v@.take(i as int), i as int);
        }
        i = i + 1;
    }
    assert(v@.take(v@.len() as int) =~= v@);
    r
}

/// A copy of a name.
pub fn clone_ident(i: &Ident) -> (r: Ident)
    ensures
        r == *i,
{
    Ident(i.0.clone())
}

/// A copy of a group.
pub fn clone_compound(c: &Compound) -> (r: Compound)
    ensures
        view_compound(r) == view_compound(*c),
    decreases c, 2nat,
{
    match c {
        Compound::Parens(v) => Compound::Parens(clone_exps(v)),
        Compound::Braces(v) => Compound::Braces(clone_exps(v)),
        Compound::Brackets(v) => Compound::Brackets(clone_exps(v)),
        Compound::Ratio(v) => {
            let mut r: Vec<Absolute> = Vec::new();
            let mut i: usize = 0;
            while i < v.len()
                invariant
                    i <= v@.len(),
                    r@ == v@.take(i as int),
                decreases v@.len() - i,
            {
                r.push(v[i]);
                proof {
                    assert(v@.take(i + 1) =~= v@.take(i as int).push(v@[i as int]));
                }
                i = i + 1;
            }
            assert(v@.take(v@.len() as int) =~= v@);
            Compound::Ratio(r)
        },
    }
}

/// A copy of a simple expression.
pub fn clone_simple(s: &Simple) -> (r: Simple)
    ensures
        view_simple(r) == view_simple(*s),
    decreases s, 2nat,
{
    match s {
        Simple::Prefix(p) => Simple::Prefix(*p),
        Simple::Scalar(sc) => Simple::Scalar(clone_scalar(sc)),
        Simple::Infix(i) => Simple::Infix(*i),
        Simple::Suffix(x) => Simple::Suffix(*x),
        Simple::Decl(d) => Simple::Decl(clone_decl(d)),
        Simple::Ident(i) => Simple::Ident(clone_ident(i)),
    }
}

/// A copy of a value.
pub fn clone_scalar(s: &Scalar) -> (r: Scalar)
    ensures
        r == *s,
{
    match s {
        Scalar::Duration(d) => Scalar::Duration(*d),
        Scalar::Frequency(a) => Scalar::Frequency(*a),
        Scalar::Pure(p) => Scalar::Pure(*p),
        Scalar::Dynamic(d) => Scalar::Dynamic(Dynamic(d.0.clone())),
        Scalar::Tuplet(t) => Scalar::Tuplet(*t),
        Scalar::Prog(p) => Scalar::Prog(*p),
        Scalar::Register(r) => Scalar::Register(*r),
        Scalar::Rest => Scalar::Rest,
    }
}

/// A copy of a declaration.
pub fn clone_decl(d: &Decl) -> (r: Decl)
    ensures
        view_decl(r) == view_decl(*d),
    decreases d, 2nat,
{
    match d {
        Decl::ImportDecl(i) => Decl::ImportDecl(ImportDecl(clone_ident(&i.0))),
        Decl::ExpDecl(e) => {
            let b = clone_exp(&*e.binding);
            Decl::ExpDecl(ExpDecl { ident: clone_ident(&e.ident), binding: Box::new(b) })
        },
        Decl::FuncDecl(f) => {
            let mut params: Vec<Ident> = Vec::new();
            let mut i: usize = 0;
            while i < f.params.len()
                invariant
                    i <= f.params@.len(),
                    params@ == f.params@.take(i as int),
                decreases f.params@.len() - i,
            {
                params.push(clone_ident(&f.params[i]));
                proof {
                    assert(f.params@.take(i + 1) =~= f.params@.take(i as int).push(
                        f.params@[i as int],
                    ));
                }
                i = i + 1;
            }
            assert(f.params@.take(f.params@.len() as int) =~= f.params@);
            Decl::FuncDecl(
                FuncDecl {
                    ident: clone_ident(&f.ident),
                    params,
                    funcdef: clone_exps(&f.funcdef),
                },
            )
        },
    }
}

} // verus!
