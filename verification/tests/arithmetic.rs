use dsch::compiler::ast::{Absolute, Compound, Exp, Pure, Scalar, Simple};
use dsch::compiler::codegen::fraction::Fraction;
use dsch::compiler::codegen::timing::{add_lengths, row_max_of, row_min_of, rows_max_sum_of};
use dsch::compiler::codegen::utils::{flatten, gcd, gcf, lcd, length_to_ticks};
use dsch::compiler::codegen::{low_byte_i8, Length, Mpb, Pc, Prog, Register, Scope, Velocity};
use dsch::compiler::ast::Dynamic;

fn ratio(l: &Length) -> (u64, u64) {
    match l {
        Length::MicroSeconds(f) => (f.numer, f.denom),
        Length::Nothing => panic!("no duration"),
    }
}

#[test]
fn gcd_divides_both_and_ignores_order() {
    assert_eq!(gcd(12, 18), 6);
    assert_eq!(gcd(18, 12), 6);
    assert_eq!(gcd(0, 7), 7);
    assert_eq!(gcd(0, 0), 0);
    assert_eq!(gcf(48, 36), 12);
    assert_eq!(lcd(4, 6), 12);
    assert_eq!(lcd(0, 5), 0);
}

#[test]
fn ticks_at_the_default_tempo() {
    let beat = Length::from_u64(500_000);
    let tempo = Mpb::default();
    assert_eq!(length_to_ticks(beat, tempo), Some(25_200));
    let half = Length::MicroSeconds(Fraction { numer: 1_000_000, denom: 4 });
    assert_eq!(length_to_ticks(half, tempo), Some(12_600));
    assert_eq!(length_to_ticks(Length::Nothing, tempo), Some(0));
}

#[test]
fn lengths_add_exactly() {
    let a = Length::MicroSeconds(Fraction { numer: 1, denom: 2 });
    let b = Length::MicroSeconds(Fraction { numer: 1, denom: 3 });
    assert_eq!(ratio(&a.checked_add(&b).expect("fits")), (5, 6));
    assert_eq!(ratio(&a.checked_sub(&b).expect("fits")), (1, 6));
    let big = Length::from_u64(u64::MAX);
    assert!(big.checked_add(&Length::from_u64(1)).is_none());
    assert_eq!(ratio(&add_lengths(&Length::from_u64(3), &Length::Nothing).expect("fits")), (3, 1));
}

#[test]
fn rows_of_lengths() {
    let row = vec![Length::from_u64(5), Length::from_u64(2), Length::from_u64(9)];
    assert_eq!(ratio(&row_min_of(&row)), (2, 1));
    assert_eq!(ratio(&row_max_of(&row)), (9, 1));
    let rows = vec![vec![Length::from_u64(1), Length::from_u64(4)], vec![Length::from_u64(6)]];
    assert_eq!(rows_max_sum_of(&rows).map(|l| ratio(&l)), Some((10, 1)));
    let with_empty = vec![vec![Length::from_u64(1)], vec![]];
    assert!(rows_max_sum_of(&with_empty).is_none());
}

#[test]
fn tempo_from_beats_per_minute() {
    let t = Mpb::from_bpm(Absolute::UInt(120));
    assert_eq!((t.0.numer, t.0.denom), (500_000, 1));
    let t = Mpb::from_bpm(Absolute::UInt(7));
    assert_eq!((t.0.numer, t.0.denom), (60_000_000, 7));
    let f = Mpb(Fraction { numer: 500_000, denom: 1 }).floor_128();
    assert_eq!((f.0.numer, f.0.denom), (499_968, 1));
}

#[test]
fn dynamics_to_velocities() {
    let v = |s: &str| Velocity::from_dynamic(&Dynamic(s.to_string())).0;
    assert_eq!(
        vec![v("ppp"), v("pp"), v("p"), v("mp"), v("mf"), v("f"), v("ff"), v("fff"), v("sfz")],
        vec![20, 39, 57, 71, 84, 98, 113, 127, 80]
    );
    assert_eq!(Velocity::from_absolute(Absolute::UInt(100)), Velocity(255));
    assert_eq!(Velocity::from_absolute(Absolute::UInt(300)), Velocity(44));
    assert_eq!(Velocity::from_usize(1000), Velocity(255));
}

#[test]
fn absolute_numbers_round_half_up() {
    let f = |n, d| Absolute::Float(Fraction { numer: n, denom: d });
    assert_eq!(f(5, 2).as_u64(), 3);
    assert_eq!(f(7, 3).as_u64(), 2);
    assert_eq!(Absolute::UInt(9).as_usize(), 9);
    assert_eq!(f(3, 4).as_fraction(), Fraction { numer: 3, denom: 4 });
    assert!(matches!(Absolute::UInt(7).div(Absolute::UInt(2)), Absolute::UInt(3)));
    assert_eq!(f(1, 3).mul_u64(1_000_000), 333_333);
    assert_eq!(Absolute::UInt(2).mul_u64(60_000_000), 120_000_000);
}

#[test]
fn pitch_classes_registers_and_bytes() {
    assert!(matches!(Pc::from_absolute(Absolute::UInt(3)), Pc::Class(Fraction { numer: 255, denom: 1 })));
    assert!(matches!(Pc::from_absolute(Absolute::UInt(300)), Pc::Class(Fraction { numer: 300, denom: 1 })));
    assert_eq!(low_byte_i8(300), 44);
    assert_eq!(low_byte_i8(200), -56);
    assert_eq!(Register::Reg(3).add(Register::Reg(2)), Register::Reg(5));
    assert_eq!(Register::Nothing.as_i8(), 4);
    assert_eq!(Prog::from_usize(1000), Prog(255));
}

#[test]
fn lengths_order_with_nothing_last() {
    let a = Length::from_u64(1);
    let b = Length::MicroSeconds(Fraction { numer: 2, denom: 2 });
    assert!(a.ord_le(&b) && b.ord_le(&a) && a.ord_eq(&b));
    assert!(a.ord_lt(&Length::Nothing));
    assert!(!Length::Nothing.ord_le(&a));
}

#[test]
fn flatten_joins_rows() {
    let mut rows = vec![vec![1, 2], vec![], vec![3]];
    flatten(&mut rows);
    assert_eq!(rows, vec![vec![1, 2, 3]]);
    let mut none: Vec<Vec<u8>> = vec![];
    flatten(&mut none);
    assert!(none.is_empty());
}

#[test]
fn groups_open_scopes() {
    let n = Exp::Simple(Simple::Scalar(Scalar::Pure(Pure::Absolute(Absolute::UInt(1)))));
    let parens = Compound::Parens(vec![n]);
    assert_eq!(parens.scope(), Scope::Sequence);
    assert_eq!(parens.to_vecdeque().len(), 1);
    assert_eq!(Compound::Braces(vec![]).scope(), Scope::Stack);
    assert_eq!(Compound::Brackets(vec![]).scope(), Scope::Unordered);
    assert_eq!(Compound::Ratio(vec![Absolute::UInt(1)]).scope(), Scope::Nothing);
    assert!(Compound::Ratio(vec![Absolute::UInt(1)]).to_vecdeque().is_empty());
}

#[test]
fn a_common_divisor_divides_the_gcd() {
    let g = gcd(84, 126);
    assert_eq!(g, 42);
    for d in [1u64, 2, 3, 6, 7, 14, 21, 42] {
        assert_eq!(84 % d, 0);
        assert_eq!(126 % d, 0);
        assert_eq!(g % d, 0);
    }
}
