use dsch::compiler::ast::{Absolute, Exp, Ident, Pure, Scalar, Simple};
use dsch::compiler::codegen::fraction::Fraction;
use dsch::compiler::codegen::state::{Column, ParamKind, Rows, State};
use dsch::compiler::codegen::{Ctx, Length, Mpb, Pc, Prog, Register, Scope, Slice, Velocity};

fn num(n: u64) -> Exp {
    Exp::Simple(Simple::Scalar(Scalar::Pure(Pure::Absolute(Absolute::UInt(n)))))
}

fn is_num(e: &Exp, n: u64) -> bool {
    matches!(e, Exp::Simple(Simple::Scalar(Scalar::Pure(Pure::Absolute(Absolute::UInt(m))))) if *m == n)
}

#[test]
fn children_are_made_under_their_parent() {
    let mut s = State::new();
    let root = s.append_child(Ctx::Nothing);
    assert_eq!(root, Ctx::Root);
    let a = s.append_child(Ctx::Root);
    let b = s.append_child(Ctx::Root);
    assert_eq!(a, Ctx::Id(1));
    assert_eq!(b, Ctx::Id(2));
    assert_eq!(s.children(Ctx::Root), vec![a, b]);
    assert_eq!(s.parent(b), Ctx::Root);
    assert_eq!(s.scope(a), Scope::Nothing);
    s.set_scope(a, Scope::Stack);
    assert_eq!(s.scope(a), Scope::Stack);
    assert_eq!(s.ctx_count(), 3);
}

#[test]
fn a_binding_reads_back_and_is_seen_from_below() {
    let mut s = State::new();
    s.append_child(Ctx::Nothing);
    let child = s.append_child(Ctx::Root);
    s.add_binding(Ctx::Root, Ident("x".to_string()), num(5));
    assert!(is_num(&s.binding(Ctx::Root, &Ident("x".to_string())).expect("bound"), 5));
    assert!(is_num(&s.binding(child, &Ident("x".to_string())).expect("inherited"), 5));
    s.add_binding(child, Ident("x".to_string()), num(6));
    assert!(is_num(&s.binding(child, &Ident("x".to_string())).expect("shadowed"), 6));
    assert!(is_num(&s.binding(Ctx::Root, &Ident("x".to_string())).expect("bound"), 5));
    assert!(s.binding(child, &Ident("y".to_string())).is_none());
}

#[test]
fn pushed_back_is_read_first_and_stored_is_loaded_last() {
    let mut s = State::new();
    s.set_exps(vec![num(1), num(2)], 0);
    assert!(is_num(&s.next().expect("first"), 1));
    s.push_back(num(9));
    assert!(is_num(&s.next().expect("pushed back"), 9));
    assert!(is_num(&s.next().expect("second"), 2));
    assert!(s.next().is_none());
    s.store(num(3));
    s.store(num(4));
    assert!(is_num(&s.load().expect("last stored"), 4));
    assert!(is_num(&s.load().expect("first stored"), 3));
    assert!(s.load().is_none());
}

#[test]
fn add_then_get_in_a_sequence_and_a_stack() {
    let mut s = State::new();
    s.append_child(Ctx::Nothing);
    s.set_scope(Ctx::Root, Scope::Sequence);
    s.add(Ctx::Root, Column::Velocity(vec![Velocity(40)]));
    s.add(Ctx::Root, Column::Velocity(vec![Velocity(50)]));
    assert!(matches!(s.get(Ctx::Root, ParamKind::Velocity), Column::Velocity(v) if v == vec![Velocity(50)]));
    let st = s.append_child(Ctx::Root);
    s.set_scope(st, Scope::Stack);
    s.add(st, Column::Program(vec![Prog(3)]));
    s.add(st, Column::Program(vec![Prog(4)]));
    let rows = s.programs(st).expect("rows");
    assert_eq!(rows, vec![vec![Prog(3), Prog(4)]]);
}

#[test]
fn pad_fills_every_parameter_to_the_pitches() {
    let mut s = State::new();
    s.append_child(Ctx::Nothing);
    s.set_scope(Ctx::Root, Scope::Sequence);
    s.add(Ctx::Root, Column::Length(vec![Length::from_u64(100)]));
    s.add(Ctx::Root, Column::Pc(vec![Pc::Class(Fraction { numer: 2, denom: 1 })]));
    s.pad(Ctx::Root, 1);
    assert_eq!(s.velocities(Ctx::Root).expect("rows"), vec![vec![Velocity(80)]]);
    assert_eq!(s.programs(Ctx::Root).expect("rows"), vec![vec![Prog(0)]]);
    assert_eq!(s.lengths(Ctx::Root).expect("rows").len(), 1);
}

#[test]
fn tempo_in_beats_per_minute() {
    let mut s = State::new();
    s.set_bpm(Absolute::UInt(60));
    let t = s.tempo();
    assert_eq!((t.0.numer, t.0.denom), (1_000_000, 1));
}

#[test]
fn a_dropped_context_is_gone() {
    let mut s = State::new();
    s.append_child(Ctx::Nothing);
    let c = s.append_child(Ctx::Root);
    s.set_scope(c, Scope::Sequence);
    s.add(c, Column::Pc(vec![Pc::Nothing]));
    s.drop(c);
    assert!(s.pcs(c).is_none());
    assert!(s.children(Ctx::Root).is_empty());
}

#[test]
fn hoisting_moves_rows_up() {
    let mut s = State::new();
    s.append_child(Ctx::Nothing);
    let c = s.append_child(Ctx::Root);
    s.set_scope(c, Scope::Sequence);
    s.add(c, Column::Pc(vec![Pc::Class(Fraction { numer: 7, denom: 1 })]));
    s.pad(c, 1);
    s.hoist(c, Ctx::Root);
    let pcs = s.pcs(Ctx::Root).expect("rows");
    assert_eq!(pcs.len(), 1);
    assert!(matches!(pcs[0][0], Pc::Class(Fraction { numer: 7, denom: 1 })));
}

#[test]
fn timeline_keeps_times_in_order() {
    let mut s = State::new();
    let slice = || Slice::new(vec![Pc::Nothing], vec![], vec![], vec![], vec![], vec![]);
    s.insert_slice(Length::from_u64(20), slice());
    s.insert_slice(Length::from_u64(10), slice());
    s.insert_slice(Length::MicroSeconds(Fraction { numer: 40, denom: 2 }), slice());
    let t = s.timeline();
    assert_eq!(t.len(), 2);
    assert!(matches!(t[0].0, Length::MicroSeconds(Fraction { numer: 10, denom: 1 })));
    assert_eq!(t[1].1.len(), 2);
}

#[test]
fn extend_appends_to_every_row() {
    let mut s = State::new();
    s.append_child(Ctx::Nothing);
    let c = s.append_child(Ctx::Root);
    s.add_velocities(c, vec![Velocity(40)]);
    s.add_velocities(c, vec![Velocity(50)]);
    s.extend(c, Rows::Velocity(vec![vec![Velocity(1)], vec![Velocity(2)], vec![Velocity(3)]]));
    assert_eq!(
        s.velocities(c).expect("rows"),
        vec![vec![Velocity(40), Velocity(1)], vec![Velocity(50), Velocity(2)]]
    );
    s.add_programs(c, vec![Prog(1)]);
    s.add_programs(c, vec![Prog(2)]);
    s.extend(c, Rows::Program(vec![vec![Prog(7)], vec![Prog(8)]]));
    assert_eq!(s.programs(c).expect("rows"), vec![vec![Prog(1), Prog(7)], vec![Prog(2), Prog(8)]]);
}

#[test]
fn extend_fills_empty_rows() {
    let mut s = State::new();
    s.append_child(Ctx::Nothing);
    let c = s.append_child(Ctx::Root);
    s.extend(c, Rows::Velocity(vec![vec![Velocity(9)], vec![Velocity(10)]]));
    assert_eq!(s.velocities(c).expect("rows"), vec![vec![Velocity(9)], vec![Velocity(10)]]);
}

#[test]
fn add_length_appends_a_row_each_time() {
    let mut s = State::new();
    s.append_child(Ctx::Nothing);
    let c = s.append_child(Ctx::Root);
    s.add_length(c, Length::from_u64(100));
    s.add_length(c, Length::from_u64(200));
    s.add_length(c, Length::from_u64(300));
    let rows = s.lengths(c).expect("rows");
    assert_eq!(rows.len(), 3);
    assert!(matches!(rows[0][0], Length::MicroSeconds(Fraction { numer: 100, denom: 1 })));
    assert!(matches!(rows[2][0], Length::MicroSeconds(Fraction { numer: 300, denom: 1 })));
    s.add_program(c, Prog(5));
    s.add_program(c, Prog(6));
    assert_eq!(s.programs(c).expect("rows"), vec![vec![Prog(5)], vec![Prog(6)]]);
}

#[test]
fn root_compares_equal_to_the_first_index() {
    assert_eq!(Ctx::Root, Ctx::Id(0));
    assert_eq!(Ctx::Id(0), Ctx::Root);
    assert_ne!(Ctx::Root, Ctx::Id(1));
    assert_ne!(Ctx::Nothing, Ctx::Root);
    assert_ne!(Ctx::Nothing, Ctx::Id(0));
    assert_eq!(Ctx::Id(4), Ctx::Id(4));
    assert_eq!(Ctx::Nothing, Ctx::Nothing);
}

#[test]
fn hoisting_appends_the_children_in_order() {
    let mut s = State::new();
    s.append_child(Ctx::Nothing);
    let x = s.append_child(Ctx::Root);
    let y = s.append_child(Ctx::Root);
    let c1 = s.append_child(x);
    let c2 = s.append_child(x);
    let d = s.append_child(y);
    s.hoist(x, y);
    assert_eq!(s.children(y), vec![d, c1, c2]);
    assert_eq!(s.parent(c1), y);
    assert_eq!(s.parent(c2), y);
}

#[test]
fn sequencing_a_sequence_combines_the_stacks_below_it() {
    let mut s = State::new();
    s.append_child(Ctx::Nothing);
    s.set_scope(Ctx::Root, Scope::Sequence);
    let st = s.append_child(Ctx::Root);
    s.set_scope(st, Scope::Stack);
    let q = s.append_child(st);
    s.set_scope(q, Scope::Sequence);
    s.add(q, Column::Pc(vec![Pc::Class(Fraction { numer: 0, denom: 1 })]));
    s.add(q, Column::Length(vec![Length::from_u64(250000)]));
    s.add(q, Column::Velocity(vec![Velocity(80)]));
    s.add(q, Column::Register(vec![Register::Reg(4)]));
    s.add(q, Column::Tempo(vec![Mpb::default()]));
    s.add(q, Column::Program(vec![Prog(0)]));
    assert!(s.sequence(Ctx::Root));
    assert!(s.pcs(q).is_none());
    assert!(s.lengths(q).is_none());
    assert!(!s.timeline().is_empty());
}

#[test]
fn sequencing_a_sequence_without_children_changes_nothing() {
    let mut s = State::new();
    s.append_child(Ctx::Nothing);
    s.set_scope(Ctx::Root, Scope::Sequence);
    s.add(Ctx::Root, Column::Pc(vec![Pc::Nothing]));
    assert!(s.sequence(Ctx::Root));
    assert_eq!(s.pcs(Ctx::Root).expect("rows").len(), 1);
    assert!(s.timeline().is_empty());
}

#[test]
fn cycle_fill_repeats_rows_until_the_length_is_reached() {
    let mut s = State::new();
    s.append_child(Ctx::Nothing);
    let c = s.append_child(Ctx::Root);
    s.set_scope(c, Scope::Sequence);
    s.add(c, Column::Length(vec![Length::from_u64(250_000)]));
    s.add(c, Column::Program(vec![Prog(7)]));
    assert!(s.cycle_fill(c, Length::from_u64(1_000_000)));
    let rows = s.lengths(c).expect("rows");
    assert_eq!(rows.len(), 4);
    assert_eq!(s.programs(c).expect("rows"), vec![vec![Prog(7)]; 4]);
    assert_eq!(s.get_ctx_length(c).expect("known").as_u64(), 1_000_000);
}

#[test]
fn length_sum_adds_the_longest_of_each_row_and_the_children() {
    let mut s = State::new();
    s.append_child(Ctx::Nothing);
    let a = s.append_child(Ctx::Root);
    let b = s.append_child(Ctx::Root);
    s.set_scope(a, Scope::Sequence);
    s.set_scope(b, Scope::Sequence);
    s.add(a, Column::Length(vec![Length::from_u64(100), Length::from_u64(300)]));
    s.add(a, Column::Length(vec![Length::from_u64(200)]));
    s.add(b, Column::Length(vec![Length::from_u64(50)]));
    assert_eq!(s.length_sum(a).expect("fits").as_u64(), 500);
    assert_eq!(s.length_sum(b).expect("fits").as_u64(), 50);
    assert_eq!(s.length_sum(Ctx::Root).expect("fits").as_u64(), 550);
}
