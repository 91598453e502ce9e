use dsch::compiler::ast::{
    Absolute, Compound, Decl, Duration, Dynamic, Exp, ExpDecl, Fixed, Fractional, Ident, Infix, Prefix,
    Program, Pure, Rational, Scalar, Simple, Suffix, Tuplet,
};
use dsch::compiler::codegen::fraction::Fraction;
use dsch::compiler::codegen::state::{Column, Param, ParamKind, State, Thunk};
use dsch::compiler::codegen::{Ctx, LifeCycleEvent, Length, Pc, Register, Velocity};
use dsch::compiler::composer::{
    compose_absolute, compose_fractional_duration, compose_infix, compose_prefix, compose_program,
    compose_rest, compose_scalar, ComposeError, MAX_DEPTH,
};

fn num(n: u64) -> Exp {
    Exp::Simple(Simple::Scalar(Scalar::Pure(Pure::Absolute(Absolute::UInt(n)))))
}

fn dur(n: u64) -> Exp {
    Exp::Simple(Simple::Scalar(Scalar::Duration(Duration::Fractional(Fractional::Absolute(
        Absolute::UInt(n),
    )))))
}

fn seq(v: Vec<Exp>) -> Exp {
    Exp::Compound(Compound::Parens(v))
}

fn stack(v: Vec<Exp>) -> Exp {
    Exp::Compound(Compound::Braces(v))
}

fn pc_of(p: &Pc) -> Option<(u64, u64)> {
    match p {
        Pc::Class(f) => Some((f.numer, f.denom)),
        Pc::Nothing => None,
    }
}

fn micros(l: &Length) -> Option<(u64, u64)> {
    match l {
        Length::MicroSeconds(f) => Some((f.numer, f.denom)),
        Length::Nothing => None,
    }
}

#[test]
fn stacked_sequences_reach_the_timeline() {
    let program = Program {
        exps: vec![stack(vec![seq(vec![dur(4), num(0), num(4)]), seq(vec![dur(4), num(7)])])],
    };
    let state = compose_program(program).expect("composes");
    let timeline = state.timeline();
    assert_eq!(timeline.len(), 2);
    assert_eq!(micros(&timeline[0].0), Some((0, 1)));
    assert_eq!(micros(&timeline[1].0).map(|(n, d)| n / d), Some(500_000));
    assert_eq!(timeline[0].1.len(), 2);
    assert_eq!(timeline[1].1.len(), 2);
    let first: Vec<Option<(u64, u64)>> = timeline[0].1.iter().map(|s| pc_of(&s.data().0[0])).collect();
    assert_eq!(first, vec![Some((0, 1)), Some((7, 1))]);
    let second: Vec<Option<(u64, u64)>> = timeline[1].1.iter().map(|s| pc_of(&s.data().0[0])).collect();
    assert_eq!(second, vec![Some((4, 1)), Some((7, 1))]);
    assert_eq!(micros(&timeline[0].1[0].data().2[0]).map(|(n, d)| n / d), Some(500_000));
    assert_eq!(micros(&state.playhead()).map(|(n, d)| n / d), Some(1_000_000));
}

#[test]
fn a_flat_program_lays_nothing_out() {
    let program = Program { exps: vec![dur(4), num(0), num(4)] };
    let state = compose_program(program).expect("composes");
    assert_eq!(state.timeline().len(), 0);
    let pcs = state.pcs(Ctx::Root).expect("the root holds pitches");
    let flat: Vec<Option<(u64, u64)>> = pcs.iter().map(|row| pc_of(&row[0])).collect();
    assert_eq!(flat, vec![Some((0, 1)), Some((4, 1))]);
    let lengths = state.lengths(Ctx::Root).expect("the root holds lengths");
    assert_eq!(lengths.len(), 2);
    assert_eq!(micros(&lengths[1][0]), Some((500_000, 1)));
}

#[test]
fn bpm_after_a_number_sets_the_tempo() {
    let program = Program { exps: vec![num(50), Exp::Simple(Simple::Suffix(Suffix::Bpm))] };
    let state = compose_program(program).expect("composes");
    let t = state.tempo();
    assert_eq!(t.0.numer / t.0.denom, 1_200_000);
    assert_eq!(t.0.numer % t.0.denom, 0);
}

#[test]
fn an_unbound_name_is_undefined() {
    let program = Program { exps: vec![Exp::Simple(Simple::Ident(Ident("x".to_string())))] };
    match compose_program(program) {
        Err(ComposeError::UndefinedSymbol(Ident(name))) => assert_eq!(name, "x"),
        other => panic!("unexpected {:?}", other.map(|_| ())),
    }
}

#[test]
fn a_bound_name_composes_its_binding() {
    let decl = Exp::Decl(Decl::ExpDecl(ExpDecl {
        ident: Ident("low".to_string()),
        binding: Box::new(num(2)),
    }));
    let program = Program { exps: vec![decl, dur(4), Exp::Simple(Simple::Ident(Ident("low".to_string())))] };
    let state = compose_program(program).expect("composes");
    let pcs = state.pcs(Ctx::Root).expect("the root holds pitches");
    assert_eq!(pcs.len(), 1);
    assert_eq!(pc_of(&pcs[0][0]), Some((2, 1)));
}

#[test]
fn infix_operators_are_not_handled() {
    let program = Program { exps: vec![num(1), Exp::Simple(Simple::Infix(Infix::Mul)), num(2)] };
    assert!(matches!(compose_program(program), Err(ComposeError::Unsupported)));
    let mut state = State::new();
    assert!(matches!(compose_infix(Infix::Plus, Ctx::Root, &mut state), Err(ComposeError::Unsupported)));
}

#[test]
fn a_name_bound_to_itself_runs_out_of_steps() {
    let decl = Exp::Decl(Decl::ExpDecl(ExpDecl {
        ident: Ident("a".to_string()),
        binding: Box::new(Exp::Simple(Simple::Ident(Ident("a".to_string())))),
    }));
    let program = Program { exps: vec![decl, Exp::Simple(Simple::Ident(Ident("a".to_string())))] };
    assert!(matches!(compose_program(program), Err(ComposeError::Exhausted)));
}

#[test]
fn groups_nested_too_deeply_run_out_of_depth() {
    let mut e = num(0);
    for _ in 0..(MAX_DEPTH + 2) {
        e = seq(vec![e]);
    }
    let program = Program { exps: vec![e] };
    assert!(matches!(compose_program(program), Err(ComposeError::Exhausted)));
}

#[test]
fn a_zero_duration_is_invalid() {
    let program = Program { exps: vec![dur(0), num(1)] };
    assert!(matches!(compose_program(program), Err(ComposeError::Invalid)));
}

#[test]
fn fixed_durations_are_not_handled() {
    let fixed = Exp::Simple(Simple::Scalar(Scalar::Duration(Duration::Fixed(Fixed {
        minutes: Absolute::UInt(1),
        seconds: Absolute::UInt(2),
    }))));
    let program = Program { exps: vec![fixed] };
    assert!(matches!(compose_program(program), Err(ComposeError::Unsupported)));
}

#[test]
fn a_duration_too_long_overflows() {
    let mut state = State::new();
    state.set_tempo(dsch::compiler::codegen::Mpb(Fraction { numer: u64::MAX / 2, denom: 1 }));
    let r = compose_fractional_duration(Fractional::Absolute(Absolute::UInt(1)), Ctx::Root, &mut state);
    assert!(matches!(r, Err(ComposeError::Overflow)));
}

#[test]
fn register_prefix_gives_a_register() {
    let mut state = State::new();
    state.push_back(num(3));
    match compose_prefix(Prefix::Reg, Ctx::Root, &mut state) {
        Ok((Exp::Simple(Simple::Scalar(Scalar::Register(Register::Reg(n)))), Ctx::Root)) => assert_eq!(n, 3),
        _ => panic!("no register"),
    }
    state.push_back(num(300));
    match compose_prefix(Prefix::Reg, Ctx::Root, &mut state) {
        Ok((Exp::Simple(Simple::Scalar(Scalar::Register(Register::Reg(n)))), _)) => assert_eq!(n, 44),
        _ => panic!("no register"),
    }
    state.push_back(num(3));
    assert!(matches!(compose_prefix(Prefix::Dur, Ctx::Root, &mut state), Err(ComposeError::Unsupported)));
}

#[test]
fn register_prefix_folds_inside_a_group() {
    let program = Program {
        exps: vec![stack(vec![seq(vec![
            dur(4),
            Exp::Simple(Simple::Prefix(Prefix::Reg)),
            num(5),
            num(0),
        ])])],
    };
    let state = compose_program(program).expect("composes");
    let timeline = state.timeline();
    assert_eq!(timeline.len(), 1);
    assert!(matches!(timeline[0].1[0].data().1[0], Register::Reg(5)));
}

#[test]
fn an_eighth_is_half_a_beat_in_lowest_terms() {
    let mut state = State::new();
    state.push_back(Exp::Noop);
    let r = compose_fractional_duration(Fractional::Absolute(Absolute::UInt(8)), Ctx::Root, &mut state);
    assert!(matches!(r, Ok((Exp::Noop, Ctx::Root))));
    let thunks = state.thunks(Ctx::Root, LifeCycleEvent::Composing);
    assert_eq!(thunks.len(), 1);
    match thunks[0] {
        Thunk::Add(Param::Length(l)) => assert_eq!(micros(&l), Some((250_000, 1))),
        _ => panic!("no length queued"),
    }
}

#[test]
fn a_third_of_a_whole_note_keeps_its_fraction() {
    let mut state = State::new();
    compose_fractional_duration(Fractional::Absolute(Absolute::UInt(3)), Ctx::Root, &mut state).expect("measures");
    match state.thunks(Ctx::Root, LifeCycleEvent::Composing)[0] {
        Thunk::Add(Param::Length(l)) => assert_eq!(micros(&l), Some((2_000_000, 3))),
        _ => panic!("no length queued"),
    }
}

#[test]
fn a_tuplet_scales_the_shortest_length() {
    let mut state = State::new();
    state.add(Ctx::Root, Column::Length(vec![Length::from_u64(600_000)]));
    let tuplet = Tuplet { lhs: Absolute::UInt(3), rhs: Absolute::UInt(2) };
    compose_fractional_duration(Fractional::Tuplet(tuplet), Ctx::Root, &mut state).expect("measures");
    match state.thunks(Ctx::Root, LifeCycleEvent::Composing)[0] {
        Thunk::ReplaceLastLength(l) => assert_eq!(micros(&l), Some((400_000, 1))),
        _ => panic!("no replacement queued"),
    }
}

#[test]
fn a_rational_duration_counts_whole_notes_of_four_beats() {
    let mut state = State::new();
    let q = Rational { num: Absolute::UInt(3), den: Absolute::UInt(8) };
    compose_fractional_duration(Fractional::Rational(q), Ctx::Root, &mut state).expect("measures");
    match state.thunks(Ctx::Root, LifeCycleEvent::Composing)[0] {
        Thunk::Add(Param::Length(l)) => assert_eq!(micros(&l), Some((750_000, 1))),
        _ => panic!("no length queued"),
    }
}

#[test]
fn a_rest_adds_a_silent_row() {
    let mut state = State::new();
    let r = compose_rest(Ctx::Root, &mut state);
    assert!(r.is_ok());
    let pcs = state.pcs(Ctx::Root).expect("rows");
    assert_eq!(pcs.len(), 1);
    assert!(matches!(pcs[0][0], Pc::Nothing));
    let vel = state.velocities(Ctx::Root).expect("rows");
    assert_eq!(vel[0][0], Velocity(80));
}

#[test]
fn a_pitch_runs_the_queued_actions() {
    let mut state = State::new();
    state.add_thunk(Ctx::Root, LifeCycleEvent::Composing, Thunk::Add(Param::Register(Register::Reg(6))));
    compose_absolute(Absolute::UInt(9), Ctx::Root, &mut state).expect("composes");
    let regs = state.registers(Ctx::Root).expect("rows");
    assert!(matches!(regs[0][0], Register::Reg(6)));
    assert_eq!(state.thunks(Ctx::Root, LifeCycleEvent::Composing).len(), 0);
}

#[test]
fn a_dynamic_sets_the_velocity() {
    let mut state = State::new();
    compose_scalar(Scalar::Dynamic(Dynamic("ff".to_string())), Ctx::Root, &mut state).expect("composes");
    let vel = state.velocities(Ctx::Root).expect("rows");
    assert_eq!(vel[0][0], Velocity(113));
    let got = state.get(Ctx::Root, ParamKind::Velocity);
    assert!(matches!(got, Column::Velocity(v) if v == vec![Velocity(113)]));
}

#[test]
fn an_empty_program_composes_to_an_empty_timeline() {
    let state = compose_program(Program { exps: vec![] }).expect("composes");
    assert!(state.timeline().is_empty());
    assert!(state.children(Ctx::Root).is_empty());
}

#[test]
fn an_empty_group_composes() {
    let program = Program { exps: vec![Exp::Compound(Compound::Braces(vec![]))] };
    assert!(compose_program(program).is_ok());
}
