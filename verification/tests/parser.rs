use dsch::compiler::ast::{
    Absolute, Compound, Decl, Duration, Exp, Fractional, Infix, Interpolation, Prefix, Pure, Scalar, Sign, Simple,
    Suffix,
};
use dsch::compiler::codegen::fraction::Fraction;
use dsch::compiler::codegen::{Ctx, Instruction, MetaMessage, MidiMessage, Prog};
use dsch::compiler::composer::compose_program;
use dsch::compiler::parser::{parse_program, ParseError};
use dsch::compiler::scheduler::schedule;

fn one(src: &str) -> Exp {
    let mut p = parse_program(src).expect("parses");
    assert_eq!(p.exps.len(), 1, "{src}");
    p.exps.remove(0)
}

fn uint(e: &Exp) -> Option<u64> {
    match e {
        Exp::Simple(Simple::Scalar(Scalar::Pure(Pure::Absolute(Absolute::UInt(n))))) => Some(*n),
        _ => None,
    }
}

#[test]
fn numbers_and_groups() {
    let p = parse_program("(d4 0 4 7) {1 2} [3, 4]").expect("parses");
    assert_eq!(p.exps.len(), 3);
    match &p.exps[0] {
        Exp::Compound(Compound::Parens(v)) => {
            assert_eq!(v.len(), 4);
            assert!(matches!(
                v[0],
                Exp::Simple(Simple::Scalar(Scalar::Duration(Duration::Fractional(Fractional::Absolute(
                    Absolute::UInt(4)
                )))))
            ));
            assert_eq!(v[1..].iter().map(uint).collect::<Vec<_>>(), vec![Some(0), Some(4), Some(7)]);
        },
        _ => panic!("no sequence"),
    }
    assert!(matches!(&p.exps[1], Exp::Compound(Compound::Braces(v)) if v.len() == 2));
    assert!(matches!(&p.exps[2], Exp::Compound(Compound::Brackets(v)) if v.len() == 2));
}

#[test]
fn decimals_are_exact() {
    assert!(matches!(
        one("2.5"),
        Exp::Simple(Simple::Scalar(Scalar::Pure(Pure::Absolute(Absolute::Float(Fraction { numer: 25, denom: 10 })))))
    ));
    assert!(matches!(
        one("0.125"),
        Exp::Simple(Simple::Scalar(Scalar::Pure(Pure::Absolute(Absolute::Float(Fraction {
            numer: 125,
            denom: 1000
        })))))
    ));
}

#[test]
fn durations_of_every_form() {
    match one("d3:2") {
        Exp::Simple(Simple::Scalar(Scalar::Duration(Duration::Fractional(Fractional::Tuplet(t))))) => {
            assert!(matches!((t.lhs, t.rhs), (Absolute::UInt(3), Absolute::UInt(2))));
        },
        _ => panic!("no tuplet"),
    }
    match one("d3/16") {
        Exp::Simple(Simple::Scalar(Scalar::Duration(Duration::Fractional(Fractional::Rational(q))))) => {
            assert!(matches!((q.num, q.den), (Absolute::UInt(3), Absolute::UInt(16))));
        },
        _ => panic!("no rational"),
    }
    match one("5'2\"") {
        Exp::Simple(Simple::Scalar(Scalar::Duration(Duration::Fixed(f)))) => {
            assert!(matches!((f.minutes, f.seconds), (Absolute::UInt(5), Absolute::UInt(2))));
        },
        _ => panic!("no fixed duration"),
    }
    match one("2\"") {
        Exp::Simple(Simple::Scalar(Scalar::Duration(Duration::Fixed(f)))) => {
            assert!(matches!((f.minutes, f.seconds), (Absolute::UInt(0), Absolute::UInt(2))));
        },
        _ => panic!("no fixed duration"),
    }
}

#[test]
fn values_and_operators() {
    assert!(matches!(one("440Hz"), Exp::Simple(Simple::Scalar(Scalar::Frequency(Absolute::UInt(440))))));
    assert!(matches!(one("#48"), Exp::Simple(Simple::Scalar(Scalar::Prog(Prog(48))))));
    assert!(matches!(one("~"), Exp::Simple(Simple::Scalar(Scalar::Rest))));
    assert!(matches!(
        one("-3"),
        Exp::Simple(Simple::Scalar(Scalar::Pure(Pure::Relative(r)))) if r.sign == Sign::Minus
    ));
    assert!(matches!(one("3:2:1"), Exp::Compound(Compound::Ratio(v)) if v.len() == 3));
    assert!(matches!(one("mf"), Exp::Simple(Simple::Scalar(Scalar::Dynamic(d))) if d.0 == "mf"));
    assert!(matches!(one("bpm"), Exp::Simple(Simple::Suffix(Suffix::Bpm))));
    assert!(matches!(one("Hz"), Exp::Simple(Simple::Suffix(Suffix::Freq))));
    assert!(matches!(one("^"), Exp::Simple(Simple::Suffix(Suffix::Amp))));
    assert!(matches!(one("@"), Exp::Simple(Simple::Prefix(Prefix::Reg))));
    assert!(matches!(one("><"), Exp::Simple(Simple::Infix(Infix::Intercalate))));
    assert!(matches!(one(".."), Exp::Simple(Simple::Infix(Infix::Range))));
    assert!(matches!(one("<"), Exp::Simple(Simple::Infix(Infix::Interpolation(Interpolation::Increase)))));
    assert!(matches!(one("*"), Exp::Simple(Simple::Infix(Infix::Mul))));
    assert!(matches!(one("pizz"), Exp::Simple(Simple::Ident(i)) if i.0 == "pizz"));
}

#[test]
fn declarations_and_comments() {
    let p = parse_program("-- words --\nC#: 1 Violin I: #40\nost': (0 1) -- tail\nost'").expect("parses");
    assert_eq!(p.exps.len(), 4);
    match &p.exps[0] {
        Exp::Simple(Simple::Decl(Decl::ExpDecl(d))) => {
            assert_eq!(d.ident.0, "C#");
            assert_eq!(uint(&d.binding), Some(1));
        },
        _ => panic!("no declaration"),
    }
    assert!(matches!(&p.exps[1], Exp::Simple(Simple::Decl(Decl::ExpDecl(d))) if d.ident.0 == "Violin I"));
    assert!(matches!(&p.exps[2], Exp::Simple(Simple::Decl(Decl::ExpDecl(d))) if d.ident.0 == "ost'"));
    assert!(matches!(&p.exps[3], Exp::Simple(Simple::Ident(i)) if i.0 == "ost'"));
}

#[test]
fn malformed_text_is_refused_where_it_goes_wrong() {
    assert_eq!(parse_program("(0 4").err(), Some(ParseError::Unclosed(1)));
    assert_eq!(parse_program("0 )").err(), Some(ParseError::Unexpected(2)));
    assert_eq!(parse_program("99999999999999999999").err(), Some(ParseError::TooLarge(0)));
    assert_eq!(parse_program("#300").err(), Some(ParseError::TooLarge(0)));
    assert_eq!(parse_program("0 $").err(), Some(ParseError::Unexpected(2)));
    let deep = "(".repeat(200) + &")".repeat(200);
    assert!(matches!(parse_program(&deep), Err(ParseError::TooDeep(_))));
}

#[test]
fn a_chorale_composes_and_schedules() {
    let src = "-- WORDS --\n\
Strings: #48\n\
Violin I: #40\n\
Cello: #42\n\
C#: 1 D: 2 E: 4 F#: 6 G: 7 A: 9 B: 11\n\
Piano: #0\n\
Marimba: #13\n\
ost: (d4 @3 D @2 A B F# G D G A )\n\
ost8ve: (d4 @2 D @1 A B F# G D G A )\n\
ln1: (d4 @5 F# E D C# @4 B A B @5 C#)\n\
\n\
-- COMPOSITION --\n\
50 bpm\n\
\n\
Marimba\n\
\n\
{\n  ppp ost\n  ppp ost8ve\n}\n\
\n\
{\n  ppp ost\n  ppp ost8ve\n  pp ln1\n}\n";
    let program = parse_program(src).expect("parses");
    let state = compose_program(program).expect("composes");
    assert!(state.timeline().len() > 0);
    let t = state.tempo();
    assert_eq!(t.0.numer / t.0.denom, 1_200_000);
    let tracks = schedule(&state).expect("schedules");
    let notes = tracks[0]
        .iter()
        .filter(|e| matches!(e.instruction, Instruction::Midi(MidiMessage::NoteOn { vel, .. }) if vel > 0))
        .count();
    assert_eq!(notes, 8 * 2 + 8 * 3);
    assert!(tracks[0].iter().any(|e| matches!(e.instruction, Instruction::Meta(MetaMessage::Tempo(_)))));
    let root = state
        .programs(Ctx::Root)
        .and_then(|rows| rows.last().and_then(|row| row.last().copied()))
        .unwrap_or(Prog(0));
    match tracks[0][0].instruction {
        Instruction::Midi(MidiMessage::ProgramChange { program }) => assert_eq!(program, root.0 % 128),
        _ => panic!("the track opens with a program change"),
    }
    let name: Vec<u8> = state.instruments().get(&root).cloned().unwrap_or(b"Piano".to_vec());
    match &tracks[0][1].instruction {
        Instruction::Meta(MetaMessage::InstrumentName(n)) => assert_eq!(n, &name),
        _ => panic!("the instrument name follows the program change"),
    }
    assert!(matches!(tracks[0][2].instruction, Instruction::Meta(MetaMessage::Tempo(1_200_000))));
}
