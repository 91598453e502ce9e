//! The musical values that contexts hold and the MIDI instructions that the
//! scheduler emits.
pub mod arena;
pub mod fraction;
pub mod state;
pub mod timing;
pub mod utils;

use crate::compiler::ast::{round_div, Absolute, Dynamic, Fixed, Interpolation};
use crate::compiler::codegen::fraction::{
    ratio_checked_add, ratio_checked_div, ratio_checked_sub, Fraction,
};
use vstd::prelude::*;

verus! {

/// MIDI ticks per quarter note.
pub const PPQ: u16 = 25200;

/// A duration in microseconds.
#[derive(Debug, Clone, Copy)]
pub enum Length {
    MicroSeconds(Fraction),
    Nothing,
}

impl Length {
    /// A duration has a nonzero denominator.
    pub open spec fn wf(self) -> bool {
        match self {
            Length::MicroSeconds(f) => f.wf(),
            Length::Nothing => true,
        }
    }

    /// The number of microseconds; `Nothing` counts as zero.
    pub open spec fn spec_ratio(self) -> Fraction {
        match self {
            Length::MicroSeconds(f) => f,
            Length::Nothing => Fraction { numer: 0, denom: 1 },
        }
    }

    /// The order of durations: by value, and `Nothing` after every duration.
    pub open spec fn spec_ord_le(self, other: Length) -> bool {
        match (self, other) {
            (Length::MicroSeconds(a), Length::MicroSeconds(b)) => a.spec_le(b),
            (Length::MicroSeconds(_), Length::Nothing) => true,
            (Length::Nothing, Length::MicroSeconds(_)) => false,
            (Length::Nothing, Length::Nothing) => true,
        }
    }

    /// Strictly before in the order of durations.
    pub open spec fn spec_ord_lt(self, other: Length) -> bool {
        match (self, other) {
            (Length::MicroSeconds(a), Length::MicroSeconds(b)) => a.spec_lt(b),
            (Length::MicroSeconds(_), Length::Nothing) => true,
            (Length::Nothing, _) => false,
        }
    }

    /// Equal in the order of durations.
    pub open spec fn spec_ord_eq(self, other: Length) -> bool {
        match (self, other) {
            (Length::MicroSeconds(a), Length::MicroSeconds(b)) => a.spec_same(b),
            (Length::Nothing, Length::Nothing) => true,
            _ => false,
        }
    }

    /// Zero microseconds.
    pub fn default() -> (r: Length)
        ensures
            r == Length::MicroSeconds(Fraction { numer: 0, denom: 1 }),
    {
        Length::MicroSeconds(Fraction::from_integer(0))
    }

    /// `n` microseconds.
    pub fn from_u64(n: u64) -> (r: Length)
        ensures
            r == Length::MicroSeconds(Fraction { numer: n, denom: 1 }),
    {
        Length::MicroSeconds(Fraction::from_integer(n))
    }

    /// The rounded number as microseconds.
    pub fn from_absolute(value: Absolute) -> (r: Length)
        requires
            value.wf(),
        ensures
            r == Length::MicroSeconds(Fraction { numer: value.spec_round() as u64, denom: 1 }),
    {
        Length::from_u64(value.as_u64())
    }

    /// The longest duration.
    pub fn default_max() -> (r: Length)
        ensures
            r == Length::MicroSeconds(Fraction { numer: u64::MAX, denom: 1 }),
    {
        Length::from_u64(u64::MAX)
    }

    /// The number of microseconds as a fraction.
    pub fn as_ratio(&self) -> (r: Fraction)
        ensures
            r == self.spec_ratio(),
    {
        match self {
            Length::MicroSeconds(f) => *f,
            Length::Nothing => Fraction::from_integer(0),
        }
    }

    /// Whole microseconds, rounded towards zero.
    pub fn as_u64(&self) -> (r: u64)
        requires
            self.wf(),
        ensures
            r == self.spec_ratio().spec_trunc(),
    {
        self.as_ratio().to_integer()
    }

    /// Whole microseconds, when they fit in a `u32`.
    pub fn as_u32(&self) -> (r: u32)
        requires
            self.wf(),
            self.spec_ratio().spec_trunc() <= u32::MAX,
        ensures
            r == self.spec_ratio().spec_trunc(),
    {
        self.as_u64() as u32
    }

    /// Whole microseconds, when they fit in a `usize`.
    pub fn as_usize(&self) -> (r: usize)
        requires
            self.wf(),
            self.spec_ratio().spec_trunc() <= usize::MAX,
        ensures
            r == self.spec_ratio().spec_trunc(),
    {
        self.as_u64() as usize
    }

    /// `self <= other` in the order of durations.
    pub fn ord_le(&self, other: &Length) -> (r: bool)
        ensures
            r == self.spec_ord_le(*other),
    {
        match (self, other) {
            (Length::MicroSeconds(a), Length::MicroSeconds(b)) => a.le(b),
            (Length::MicroSeconds(_), Length::Nothing) => true,
            (Length::Nothing, Length::MicroSeconds(_)) => false,
            (Length::Nothing, Length::Nothing) => true,
        }
    }

    /// `self < other` in the order of durations.
    pub fn ord_lt(&self, other: &Length) -> (r: bool)
        ensures
            r == self.spec_ord_lt(*other),
    {
        match (self, other) {
            (Length::MicroSeconds(a), Length::MicroSeconds(b)) => a.lt(b),
            (Length::MicroSeconds(_), Length::Nothing) => true,
            (Length::Nothing, _) => false,
        }
    }

    /// Equal in the order of durations.
    pub fn ord_eq(&self, other: &Length) -> (r: bool)
        ensures
            r == self.spec_ord_eq(*other),
    {
        match (self, other) {
            (Length::MicroSeconds(a), Length::MicroSeconds(b)) => a.same(b),
            (Length::Nothing, Length::Nothing) => true,
            _ => false,
        }
    }

    /// `self <= other` comparing the numbers of microseconds, `Nothing` as zero.
    pub fn value_le(&self, other: &Length) -> (r: bool)
        ensures
            r == self.spec_ratio().spec_le(other.spec_ratio()),
    {
        self.as_ratio().le(&other.as_ratio())
    }

    /// `self < other` comparing the numbers of microseconds, `Nothing` as zero.
    pub fn value_lt(&self, other: &Length) -> (r: bool)
        ensures
            r == self.spec_ratio().spec_lt(other.spec_ratio()),
    {
        self.as_ratio().lt(&other.as_ratio())
    }

    /// The sum of the two durations, or `None` when it overflows.
    pub fn checked_add(&self, rhs: &Length) -> (r: Option<Length>)
        requires
            self.wf(),
            rhs.wf(),
        ensures
            r matches Some(l) ==> l.wf() && l is MicroSeconds && l.spec_ratio().is_sum_of(
                self.spec_ratio(),
                rhs.spec_ratio(),
            ) && l.spec_ratio().denom <= self.spec_ratio().denom * rhs.spec_ratio().denom,
            no_overflow_add(self.spec_ratio(), rhs.spec_ratio()) ==> r is Some,
    {
        match ratio_checked_add(self.as_ratio(), rhs.as_ratio()) {
            Some(f) => Some(Length::MicroSeconds(f)),
            None => None,
        }
    }

    /// `self - rhs`, which is not negative, or `None` when it overflows.
    pub fn checked_sub(&self, rhs: &Length) -> (r: Option<Length>)
        requires
            self.wf(),
            rhs.wf(),
            rhs.spec_ratio().spec_le(self.spec_ratio()),
        ensures
            r matches Some(l) ==> l.wf() && l is MicroSeconds && l.spec_ratio().is_difference_of(
                self.spec_ratio(),
                rhs.spec_ratio(),
            ) && l.spec_ratio().denom <= self.spec_ratio().denom * rhs.spec_ratio().denom && rhs.spec_ratio().spec_le(
                self.spec_ratio(),
            ),
            rhs.spec_ratio().spec_le(self.spec_ratio()) && self.spec_ratio().numer * rhs.spec_ratio().denom <= u64::MAX
                && self.spec_ratio().denom * rhs.spec_ratio().denom <= u64::MAX ==> r is Some,
    {
        match ratio_checked_sub(self.as_ratio(), rhs.as_ratio()) {
            Some(f) => Some(Length::MicroSeconds(f)),
            None => None,
        }
    }

    /// `minutes' seconds"` as microseconds.
    pub fn from_fixed(value: Fixed) -> (r: Length)
        requires
            value.minutes.wf(),
            value.seconds.wf(),
            fixed_micros(value) <= u64::MAX,
            value.minutes matches Absolute::UInt(n) ==> n * 60_000_000 <= u64::MAX,
            value.seconds matches Absolute::UInt(n) ==> n * 1_000_000 <= u64::MAX,
        ensures
            r == Length::MicroSeconds(Fraction { numer: fixed_micros(value) as u64, denom: 1 }),
    {
        let m = value.minutes.mul_u64(60_000_000);
        let s = value.seconds.mul_u64(1_000_000);
        Length::from_u64(m + s)
    }
}

/// `value * factor` rounded and capped the way `Absolute::mul_u64` computes it.
pub open spec fn capped_product(value: Absolute, factor: int) -> int {
    let r = round_div(value.spec_fraction().numer * factor, value.spec_fraction().denom as int);
    if r > u64::MAX {
        u64::MAX as int
    } else {
        r
    }
}

/// The microseconds of `minutes' seconds"`.
pub open spec fn fixed_micros(value: Fixed) -> int {
    capped_product(value.minutes, 60_000_000) + capped_product(value.seconds, 1_000_000)
}

/// Adding the two fractions needs no product beyond `u64`.
pub open spec fn no_overflow_add(a: Fraction, b: Fraction) -> bool {
    a.numer * b.denom + b.numer * a.denom <= u64::MAX && a.denom * b.denom <= u64::MAX
}

/// Microseconds per beat (quarter note).
#[derive(Debug, Clone, Copy)]
pub struct Mpb(pub Fraction);

/// The tempo of a context.
pub type Tempo = Mpb;

/// The tempo `bpm` can be expressed: it is positive, and 60 000 000 times its
/// denominator fits in a `u64`.
pub open spec fn tempo_computable(bpm: Absolute) -> bool {
    &&& bpm.wf()
    &&& bpm.spec_fraction().numer > 0
    &&& 60_000_000 * bpm.spec_fraction().denom <= u64::MAX
}

/// `t - t % 128`: the tempo rounded down to a multiple of 128 microseconds.
pub open spec fn floor_128_spec(t: Mpb) -> Mpb {
    if t.0.denom == 0 {
        t
    } else {
        Mpb(Fraction { numer: ((t.0.numer as int / (t.0.denom as int * 128)) * 128) as u64, denom: 1 })
    }
}

impl Mpb {
    /// 120 beats per minute.
    pub open spec fn default_spec() -> Mpb {
        Mpb(Fraction { numer: 500_000, denom: 1 })
    }

    /// 120 beats per minute.
    pub fn default() -> (r: Mpb)
        ensures
            r == Mpb(Fraction { numer: 500_000, denom: 1 }),
    {
        Mpb(Fraction::from_integer(500_000))
    }

    /// The tempo of `bpm` beats per minute: 60 000 000 / bpm microseconds.
    pub fn from_bpm(bpm: Absolute) -> (r: Mpb)
        requires
            tempo_computable(bpm),
        ensures
            r.0.wf(),
            r.0.is_quotient_of(Fraction { numer: 60_000_000, denom: 1 }, bpm.spec_fraction()),
    {
        let b = bpm.as_fraction();
        proof {
            assert(b.numer <= u64::MAX);
            assert(1 * b.numer <= u64::MAX);
        }
        match ratio_checked_div(Fraction::from_integer(60_000_000), b) {
            Some(f) => Mpb(f),
            None => {
                proof {
                    assert(false);
                }
                Mpb::default()
            },
        }
    }

    /// The tempo rounded down to a multiple of 128 microseconds, as
    /// `t - t % 128` computes it; a tempo with a zero denominator is kept.
    pub fn floor_128(&self) -> (r: Mpb)
        ensures
            r == floor_128_spec(*self),
    {
        if self.0.denom == 0 {
            return *self;
        }
        let d: u128 = (self.0.denom as u128) * 128;
        let q: u128 = (self.0.numer as u128) / d;
        proof {
            assert(q * 128 <= self.0.numer) by (nonlinear_arith)
                requires
                    q == self.0.numer as int / d as int,
                    d == self.0.denom * 128,
                    self.0.denom >= 1,
            ;
        }
        Mpb(Fraction { numer: (q * 128) as u64, denom: 1 })
    }

    /// Whether the two tempi are the same number.
    pub fn same(&self, other: &Mpb) -> (r: bool)
        ensures
            r == self.0.spec_same(other.0),
    {
        self.0.same(&other.0)
    }
}

/// A loudness, 0 to 127 on the MIDI scale.
#[derive(Debug, Clone, Copy, PartialEq, Eq, Structural, Hash)]
pub struct Velocity(pub u8);

/// The velocity that a dynamic marking stands for.
pub open spec fn dynamic_velocity(marking: Seq<char>) -> u8 {
    if marking == seq!['p', 'p', 'p'] {
        20
    } else if marking == seq!['p', 'p'] {
        39
    } else if marking == seq!['m', 'p'] {
        71
    } else if marking == seq!['p'] {
        57
    } else if marking == seq!['m', 'f'] {
        84
    } else if marking == seq!['f'] {
        98
    } else if marking == seq!['f', 'f'] {
        113
    } else if marking == seq!['f', 'f', 'f'] {
        127
    } else {
        80
    }
}

/// Louder markings play louder: `ppp`, `pp`, `p`, `mp`, `mf`, `f`, `ff`,
/// `fff` give strictly rising velocities, and any other marking gives the
/// default of 80, between `mp` and `mf`.
pub proof fn law_dynamics_rise(other: Seq<char>)
    requires
        other != seq!['p', 'p', 'p'],
        other != seq!['p', 'p'],
        other != seq!['p'],
        other != seq!['m', 'p'],
        other != seq!['m', 'f'],
        other != seq!['f'],
        other != seq!['f', 'f'],
        other != seq!['f', 'f', 'f'],
    ensures
        dynamic_velocity(seq!['p', 'p', 'p']) < dynamic_velocity(seq!['p', 'p']),
        dynamic_velocity(seq!['p', 'p']) < dynamic_velocity(seq!['p']),
        dynamic_velocity(seq!['p']) < dynamic_velocity(seq!['m', 'p']),
        dynamic_velocity(seq!['m', 'p']) < dynamic_velocity(other),
        dynamic_velocity(other) < dynamic_velocity(seq!['m', 'f']),
        dynamic_velocity(seq!['m', 'f']) < dynamic_velocity(seq!['f']),
        dynamic_velocity(seq!['f']) < dynamic_velocity(seq!['f', 'f']),
        dynamic_velocity(seq!['f', 'f']) < dynamic_velocity(seq!['f', 'f', 'f']),
{
    assert(seq!['p', 'p'].len() != seq!['p', 'p', 'p'].len());
    assert(seq!['p'].len() != seq!['p', 'p', 'p'].len());
    assert(seq!['p'].len() != seq!['p', 'p'].len());
    assert(seq!['m', 'p'].len() != seq!['p', 'p', 'p'].len());
    assert(seq!['m', 'p'][0] != seq!['p', 'p'][0]);
    assert(seq!['m', 'p'].len() != seq!['p'].len());
    assert(seq!['m', 'f'].len() != seq!['p', 'p', 'p'].len());
    assert(seq!['m', 'f'][0] != seq!['p', 'p'][0]);
    assert(seq!['m', 'f'].len() != seq!['p'].len());
    assert(seq!['m', 'f'][1] != seq!['m', 'p'][1]);
    assert(seq!['f'].len() != seq!['p', 'p', 'p'].len());
    assert(seq!['f'].len() != seq!['p', 'p'].len());
    assert(seq!['f'][0] != seq!['p'][0]);
    assert(seq!['f'].len() != seq!['m', 'p'].len());
    assert(seq!['f'].len() != seq!['m', 'f'].len());
    assert(seq!['f', 'f'].len() != seq!['p', 'p', 'p'].len());
    assert(seq!['f', 'f'][0] != seq!['p', 'p'][0]);
    assert(seq!['f', 'f'].len() != seq!['p'].len());
    assert(seq!['f', 'f'][0] != seq!['m', 'p'][0]);
    assert(seq!['f', 'f'][0] != seq!['m', 'f'][0]);
    assert(seq!['f', 'f'].len() != seq!['f'].len());
    assert(seq!['f', 'f', 'f'][0] != seq!['p', 'p', 'p'][0]);
    assert(seq!['f', 'f', 'f'].len() != seq!['p', 'p'].len());
    assert(seq!['f', 'f', 'f'].len() != seq!['p'].len());
    assert(seq!['f', 'f', 'f'].len() != seq!['m', 'p'].len());
    assert(seq!['f', 'f', 'f'].len() != seq!['m', 'f'].len());
    assert(seq!['f', 'f', 'f'].len() != seq!['f'].len());
    assert(seq!['f', 'f', 'f'].len() != seq!['f', 'f'].len());
}

/// Whether the string reads `expected`.
pub fn str_is(s: &str, expected: &str) -> (r: bool)
    ensures
        r == (s@ == expected@),
{
    let n = s.unicode_len();
    if n != expected.unicode_len() {
        return false;
    }
    let mut i: usize = 0;
    while i < n
        invariant
            n == s@.len(),
            n == expected@.len(),
            i <= n,
            forall|j: int| 0 <= j < i ==> s@[j] == expected@[j],
        decreases n - i,
    {
        if s.get_char(i) != expected.get_char(i) {
            return false;
        }
        i = i + 1;
    }
    assert(s@ =~= expected@);
    true
}

impl Velocity {
    /// Mezzo-forte-ish: 80.
    pub fn default() -> (r: Velocity)
        ensures
            r == Velocity(80),
    {
        Velocity(80)
    }

    /// The velocity of a dynamic marking; 80 for an unknown one.
    pub fn from_dynamic(value: &Dynamic) -> (r: Velocity)
        ensures
            r == Velocity(dynamic_velocity(value.0@)),
    {
        let s = value.0.as_str();
        let vel: u8 = if str_is(s, "ppp") {
            20
        } else if str_is(s, "pp") {
            39
        } else if str_is(s, "mp") {
            71
        } else if str_is(s, "p") {
            57
        } else if str_is(s, "mf") {
            84
        } else if str_is(s, "f") {
            98
        } else if str_is(s, "ff") {
            113
        } else if str_is(s, "fff") {
            127
        } else {
            80
        };
        proof {
            reveal_strlit("ppp");
            reveal_strlit("pp");
            reveal_strlit("mp");
            reveal_strlit("p");
            reveal_strlit("mf");
            reveal_strlit("f");
            reveal_strlit("ff");
            reveal_strlit("fff");
            assert("ppp"@ =~= seq!['p', 'p', 'p']);
            assert("pp"@ =~= seq!['p', 'p']);
            assert("mp"@ =~= seq!['m', 'p']);
            assert("p"@ =~= seq!['p']);
            assert("mf"@ =~= seq!['m', 'f']);
            assert("f"@ =~= seq!['f']);
            assert("ff"@ =~= seq!['f', 'f']);
            assert("fff"@ =~= seq!['f', 'f', 'f']);
        }
        Velocity(vel)
    }

    /// The velocity that an absolute number gives: its rounded value, at
    /// least 255, reduced to its low byte.
    pub fn from_absolute(value: Absolute) -> (r: Velocity)
        requires
            value.wf(),
            value.spec_round() <= usize::MAX,
        ensures
            r.0 == (if value.spec_round() > 255 {
                value.spec_round() % 256
            } else {
                255
            }),
    {
        let n = value.as_usize();
        let m: usize = if n > 255 {
            n
        } else {
            255
        };
        Velocity((m % 256) as u8)
    }

    /// `value`, capped at 255.
    pub fn from_usize(value: usize) -> (r: Velocity)
        ensures
            r.0 == if value > 255 {
                255
            } else {
                value
            },
    {
        Velocity(if value > 255 {
            255
        } else {
            value as u8
        })
    }
}

/// A context: an index into the arena, the root, or no context at all.
/// `Root` compares equal to `Id(0)`.
#[derive(Debug, Clone, Copy, Eq)]
pub enum Ctx {
    Id(usize),
    Root,
    Nothing,
}

/// When `==` holds of two contexts: the same index, both the root, both no
/// context, or the root and index 0.
pub open spec fn ctx_eq(a: Ctx, b: Ctx) -> bool {
    match a {
        Ctx::Id(m) => match b {
            Ctx::Id(n) => m == n,
            Ctx::Root => m == 0,
            Ctx::Nothing => false,
        },
        Ctx::Root => match b {
            Ctx::Id(n) => n == 0,
            Ctx::Root => true,
            Ctx::Nothing => false,
        },
        Ctx::Nothing => b == Ctx::Nothing,
    }
}

impl PartialEq for Ctx {
    fn eq(&self, other: &Self) -> (r: bool) {
        match (*self, *other) {
            (Ctx::Id(n1), Ctx::Id(n2)) => n1 == n2,
            (Ctx::Root, Ctx::Id(n)) => n == 0,
            (Ctx::Id(n), Ctx::Root) => n == 0,
            (Ctx::Root, Ctx::Root) => true,
            (Ctx::Nothing, Ctx::Nothing) => true,
            _ => false,
        }
    }
}

impl vstd::std_specs::cmp::PartialEqSpecImpl for Ctx {
    open spec fn obeys_eq_spec() -> bool {
        true
    }

    open spec fn eq_spec(&self, other: &Self) -> bool {
        ctx_eq(*self, *other)
    }
}

impl Ctx {
    /// The index of an `Id`, 0 for the others.
    pub fn to_usize(&self) -> (r: usize)
        ensures
            r == match self {
                Ctx::Id(id) => *id,
                _ => 0,
            },
    {
        if let Ctx::Id(id) = self {
            *id
        } else {
            0
        }
    }

    /// The index of an `Id` truncated to 32 bits, 0 for the others.
    pub fn to_u32(&self) -> (r: u32)
        ensures
            r == match self {
                Ctx::Id(id) => (*id as int % 0x1_0000_0000) as u32,
                _ => 0,
            },
    {
        if let Ctx::Id(id) = self {
            ((*id as u64) % 0x1_0000_0000) as u32
        } else {
            0
        }
    }

    /// The context with index `value`.
    pub fn from_usize(value: usize) -> (r: Ctx)
        ensures
            r == Ctx::Id(value),
    {
        Ctx::Id(value)
    }
}

/// How the children of a context are played.
#[derive(Clone, Debug, Copy, Hash, PartialEq, Eq, Structural)]
pub enum Scope {
    Sequence,
    Stack,
    Unordered,
    Nothing,
}

/// A pitch class (semitones above the register's C), or a rest.
#[derive(Debug, Clone, Copy)]
pub enum Pc {
    Class(Fraction),
    Nothing,
}

/// The pitch class that an absolute number gives: its rounded value, but at
/// least 255.
pub open spec fn absolute_pc(value: Absolute) -> Pc {
    Pc::Class(
        Fraction {
            numer: if value.spec_round() > 255 {
                value.spec_round() as u64
            } else {
                255
            },
            denom: 1,
        },
    )
}

impl Pc {
    /// A pitch class has a nonzero denominator.
    pub open spec fn wf(self) -> bool {
        match self {
            Pc::Class(f) => f.wf(),
            Pc::Nothing => true,
        }
    }

    /// The pitch class as a number; a rest counts as zero.
    pub open spec fn spec_value(self) -> Fraction {
        match self {
            Pc::Class(f) => f,
            Pc::Nothing => Fraction { numer: 0, denom: 1 },
        }
    }

    /// The pitch class as a number; a rest counts as zero.
    pub fn value(&self) -> (r: Fraction)
        ensures
            r == self.spec_value(),
    {
        match self {
            Pc::Class(f) => *f,
            Pc::Nothing => Fraction::from_integer(0),
        }
    }

    /// The pitch class that an absolute number gives: its rounded value, but
    /// at least 255.
    pub fn from_absolute(value: Absolute) -> (r: Pc)
        requires
            value.wf(),
            value.spec_round() <= usize::MAX,
        ensures
            r == absolute_pc(value),
    {
        let n = value.as_usize();
        let m: usize = if n > 255 {
            n
        } else {
            255
        };
        Pc::Class(Fraction::from_integer(m as u64))
    }

    /// `self <= other` comparing their values.
    pub fn le(&self, other: &Pc) -> (r: bool)
        ensures
            r == self.spec_value().spec_le(other.spec_value()),
    {
        self.value().le(&other.value())
    }
}

/// A MIDI program (instrument) number.
#[derive(Debug, Clone, Copy, PartialEq, Eq, Structural, Hash)]
pub struct Prog(pub u8);

impl Prog {
    /// Program 0.
    pub fn default() -> (r: Prog)
        ensures
            r == Prog(0),
    {
        Prog(0)
    }

    /// `value`, capped at 255.
    pub fn from_usize(value: usize) -> (r: Prog)
        ensures
            r.0 == if value > 255 {
                255
            } else {
                value
            },
    {
        Prog(if value > 255 {
            255
        } else {
            value as u8
        })
    }
}

/// An octave register.
#[derive(Debug, Clone, Copy, PartialEq, Eq, Structural, Hash)]
pub enum Register {
    Reg(i8),
    Nothing,
}

/// The low byte of `v` read as a signed byte.
pub open spec fn low_byte_signed(v: int) -> int {
    let b = v % 256;
    if b < 128 {
        b
    } else {
        b - 256
    }
}

/// The low byte of `v` read as a signed byte.
pub fn low_byte_i8(v: u64) -> (r: i8)
    ensures
        r == low_byte_signed(v as int),
{
    let b = v % 256;
    if b < 128 {
        b as i8
    } else {
        (b as i16 - 256) as i8
    }
}

impl Register {
    /// Octave 4.
    pub fn default() -> (r: Register)
        ensures
            r == Register::Reg(4),
    {
        Register::Reg(4)
    }

    /// The octave number; octave 4 when unset.
    pub open spec fn spec_i8(self) -> i8 {
        match self {
            Register::Reg(n) => n,
            Register::Nothing => 4,
        }
    }

    /// The octave number; octave 4 when unset.
    pub fn as_i8(&self) -> (r: i8)
        ensures
            r == self.spec_i8(),
    {
        match *self {
            Register::Reg(n) => n,
            Register::Nothing => 4,
        }
    }

    /// The sum of the two octave numbers.
    pub fn add(self, rhs: Register) -> (r: Register)
        requires
            i8::MIN <= self.spec_i8() + rhs.spec_i8() <= i8::MAX,
        ensures
            r == Register::Reg((self.spec_i8() + rhs.spec_i8()) as i8),
    {
        Register::Reg(self.as_i8() + rhs.as_i8())
    }

    /// `self - rhs` clamped from below at `i8::MIN`, then at -1.
    pub fn sub(self, rhs: Register) -> (r: Register)
        requires
            rhs.spec_i8() >= 0,
        ensures
            r == Register::Reg(
                {
                    let l = if self.spec_i8() > i8::MIN + rhs.spec_i8() {
                        self.spec_i8() as int
                    } else {
                        i8::MIN + rhs.spec_i8()
                    };
                    if l - rhs.spec_i8() > -1 {
                        (l - rhs.spec_i8()) as i8
                    } else {
                        -1i8
                    }
                },
            ),
    {
        let lhs = self.as_i8();
        let rhs = rhs.as_i8();
        let floor = i8::MIN + rhs;
        let l = if lhs > floor {
            lhs
        } else {
            floor
        };
        let d = l - rhs;
        Register::Reg(
            if d > -1 {
                d
            } else {
                -1
            },
        )
    }

    /// The register of an absolute number: its rounded value capped at 255,
    /// read as a signed byte.
    pub fn from_absolute(value: Absolute) -> (r: Register)
        requires
            value.wf(),
        ensures
            r == Register::Reg(
                low_byte_signed(
                    if value.spec_round() > 255 {
                        255
                    } else {
                        value.spec_round()
                    },
                ) as i8,
            ),
    {
        let n = value.as_u64();
        let m: u64 = if n > 255 {
            255
        } else {
            n
        };
        Register::Reg(low_byte_i8(m))
    }

    /// `value`, capped at 127.
    pub fn from_usize(value: usize) -> (r: Register)
        ensures
            r == Register::Reg(
                if value > 127 {
                    127
                } else {
                    value as i8
                },
            ),
    {
        Register::Reg(if value > 127 {
            127
        } else {
            value as i8
        })
    }
}

/// A meta event of a MIDI track, with plain values.
#[derive(Clone, PartialEq, Eq, Debug, Hash)]
pub enum MetaMessage {
    TrackNumber(Option<u16>),
    Text(Vec<u8>),
    Copyright(Vec<u8>),
    TrackName(Vec<u8>),
    InstrumentName(Vec<u8>),
    Lyric(Vec<u8>),
    Marker(Vec<u8>),
    CuePoint(Vec<u8>),
    ProgramName(Vec<u8>),
    DeviceName(Vec<u8>),
    MidiChannel(u8),
    MidiPort(u8),
    EndOfTrack,
    Tempo(u32),
    SmpteOffset(SmpteTime),
    TimeSignature(u8, u8, u8, u8),
    KeySignature(i8, bool),
    SequencerSpecific(Vec<u8>),
    Unknown(u8, Vec<u8>),
}

/// An SMPTE time stamp.
#[derive(Clone, Copy, PartialEq, Eq, Debug, Hash, Structural)]
pub struct SmpteTime {
    pub hour: u8,
    pub minute: u8,
    pub second: u8,
    pub frame: u8,
    pub subframe: u8,
    pub fps: u8,
}

/// A channel message of a MIDI track, with plain values.
#[derive(Clone, Copy, PartialEq, Eq, Debug, Hash, Structural)]
pub enum MidiMessage {
    NoteOff { key: u8, vel: u8 },
    NoteOn { key: u8, vel: u8 },
    Aftertouch { key: u8, vel: u8 },
    Controller { controller: u8, value: u8 },
    ProgramChange { program: u8 },
    ChannelAftertouch { vel: u8 },
    PitchBend { bend: u16 },
}

/// One event of the schedule.
#[derive(Debug, Clone)]
pub enum Instruction {
    Midi(MidiMessage),
    Meta(MetaMessage),
}

/// When a deferred action runs.
#[derive(Debug, Clone, Copy, PartialEq, Eq, Structural, Hash)]
pub enum LifeCycleEvent {
    Sequencing,
    Composing,
    Nothing,
}

/// A value of any of the parameters that a context holds.
#[derive(Debug, Clone, Copy)]
pub enum Data {
    Pc(Pc),
    Length(Length),
    Velocity(Velocity),
    Tempo(Mpb),
    Register(Register),
    Interpolation(Interpolation),
    Program(Prog),
    Nothing,
}

/// Whether the columns of a context hold one kind of value.
#[derive(Clone, Copy, Debug)]
pub enum Layer {
    Heterogenous,
    Homogenous(HomogenousLayer),
}

/// The kind of value of a homogenous layer.
#[derive(Debug, Clone, Copy)]
pub enum HomogenousLayer {
    Length,
    Pc,
    Prog,
    Register,
    Velocity,
    Tempo,
}

/// What sounds at one instant: the values of one column of a context.
#[derive(Debug)]
pub struct Slice {
    pcs: Vec<Pc>,
    registers: Vec<Register>,
    lengths: Vec<Length>,
    velocities: Vec<Velocity>,
    tempos: Vec<Tempo>,
    programs: Vec<Prog>,
}

impl Slice {
    pub closed spec fn spec_pcs(&self) -> Seq<Pc> {
        self.pcs@
    }

    pub closed spec fn spec_registers(&self) -> Seq<Register> {
        self.registers@
    }

    pub closed spec fn spec_lengths(&self) -> Seq<Length> {
        self.lengths@
    }

    pub closed spec fn spec_velocities(&self) -> Seq<Velocity> {
        self.velocities@
    }

    pub closed spec fn spec_tempos(&self) -> Seq<Tempo> {
        self.tempos@
    }

    pub closed spec fn spec_programs(&self) -> Seq<Prog> {
        self.programs@
    }

    /// A slice of the given values.
    pub fn new(
        pcs: Vec<Pc>,
        registers: Vec<Register>,
        lengths: Vec<Length>,
        velocities: Vec<Velocity>,
        tempos: Vec<Tempo>,
        programs: Vec<Prog>,
    ) -> (r: Self)
        ensures
            r.spec_pcs() == pcs@,
            r.spec_registers() == registers@,
            r.spec_lengths() == lengths@,
            r.spec_velocities() == velocities@,
            r.spec_tempos() == tempos@,
            r.spec_programs() == programs@,
    {
        Self { pcs, registers, lengths, velocities, tempos, programs }
    }

    /// The values of the slice.
    pub fn data(&self) -> (r: (&[Pc], &[Register], &[Length], &[Velocity], &[Tempo], &[Prog]))
        ensures
            r.0@ == self.spec_pcs(),
            r.1@ == self.spec_registers(),
            r.2@ == self.spec_lengths(),
            r.3@ == self.spec_velocities(),
            r.4@ == self.spec_tempos(),
            r.5@ == self.spec_programs(),
    {
        (
            self.pcs.as_slice(),
            self.registers.as_slice(),
            self.lengths.as_slice(),
            self.velocities.as_slice(),
            self.tempos.as_slice(),
            self.programs.as_slice(),
        )
    }
}

} // verus!
