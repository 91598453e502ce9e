use dsch::compiler::ast::{Absolute, Compound, Duration, Exp, Fractional, Program, Pure, Scalar, Simple};
use dsch::compiler::codegen::fraction::Fraction;
use dsch::compiler::codegen::state::State;
use dsch::compiler::codegen::{Instruction, Length, MetaMessage, MidiMessage, Mpb, Pc, Prog, Register, Velocity};
use dsch::compiler::composer::compose_program;
use dsch::compiler::scheduler::{render_tracks, schedule, Scheduler};
use dsch::compiler::functional::{head, tail, Monad};

fn num(n: u64) -> Exp {
    Exp::Simple(Simple::Scalar(Scalar::Pure(Pure::Absolute(Absolute::UInt(n)))))
}

fn dur(n: u64) -> Exp {
    Exp::Simple(Simple::Scalar(Scalar::Duration(Duration::Fractional(Fractional::Absolute(
        Absolute::UInt(n),
    )))))
}

#[test]
fn the_clock_moves_and_resets() {
    let mut s = Scheduler::default();
    assert_eq!(s.ticks(), 0);
    s.forward(100);
    s.rewind(30);
    assert_eq!(s.ticks(), 70);
    s.to(5);
    assert_eq!(s.ticks(), 5);
    s.reset();
    assert_eq!(s.ticks(), 0);
    assert_eq!(s.event_index(), 0);
}

#[test]
fn instructions_at_one_time_keep_their_order() {
    let mut s = Scheduler::default();
    s.add_instruction(10, Instruction::Midi(MidiMessage::NoteOn { key: 60, vel: 80 }));
    s.add_instruction(0, Instruction::Midi(MidiMessage::NoteOn { key: 62, vel: 80 }));
    s.add_instruction(10, Instruction::Midi(MidiMessage::NoteOn { key: 64, vel: 80 }));
    let sch = s.schedule();
    assert_eq!(sch.len(), 2);
    assert_eq!(sch[0].0, 0);
    assert_eq!(sch[1].0, 10);
    assert_eq!(sch[1].1.len(), 2);
    assert!(matches!(sch[1].1[1], Instruction::Midi(MidiMessage::NoteOn { key: 64, .. })));
    assert_eq!(s.event_index(), 3);
}

#[test]
fn a_note_starts_and_ends() {
    let mut s = Scheduler::default();
    let ok = s.schedule_note(
        vec![Pc::Class(Fraction { numer: 0, denom: 1 })],
        vec![Register::Reg(4)],
        vec![Velocity(90)],
        vec![Length::from_u64(500_000)],
        vec![Mpb(Fraction { numer: 500_000, denom: 1 })],
    );
    assert!(ok);
    let sch = s.schedule();
    assert_eq!(sch.len(), 2);
    assert!(matches!(sch[0].1[0], Instruction::Midi(MidiMessage::NoteOn { key: 60, vel: 90 })));
    assert_eq!(sch[1].0, 25_200);
    assert!(matches!(sch[1].1[0], Instruction::Midi(MidiMessage::NoteOn { key: 60, vel: 0 })));
}

#[test]
fn a_tempo_change_is_scheduled_once() {
    let mut s = Scheduler::default();
    s.set_tempo(Mpb(Fraction { numer: 500_000, denom: 1 }));
    assert_eq!(s.schedule().len(), 0);
    s.set_tempo(Mpb(Fraction { numer: 600_000, denom: 1 }));
    assert_eq!(s.schedule().len(), 1);
    assert!(matches!(s.schedule()[0].1[0], Instruction::Meta(MetaMessage::Tempo(600_000))));
}

#[test]
fn a_program_change_is_scheduled_once() {
    let mut s = Scheduler::default();
    let state = State::new();
    s.set_program(Prog(0), &state);
    assert_eq!(s.schedule().len(), 0);
    s.set_program(Prog(5), &state);
    assert!(s.schedule()[0].1.iter().any(|i| matches!(i, Instruction::Midi(MidiMessage::ProgramChange { program: 5 }))));
}

#[test]
fn deltas_count_from_the_previous_time() {
    let sch = vec![
        (0u64, vec![Instruction::Midi(MidiMessage::NoteOn { key: 60, vel: 1 })]),
        (30u64, vec![
            Instruction::Midi(MidiMessage::NoteOn { key: 60, vel: 0 }),
            Instruction::Midi(MidiMessage::NoteOn { key: 61, vel: 1 }),
        ]),
    ];
    let tracks = render_tracks(sch);
    assert_eq!(tracks.len(), 1);
    let deltas: Vec<u32> = tracks[0].iter().map(|e| e.delta).collect();
    assert_eq!(deltas, vec![0, 30, 0]);
}

#[test]
fn a_composed_piece_schedules_from_a_program_change() {
    let program = Program {
        exps: vec![Exp::Compound(Compound::Braces(vec![
            Exp::Compound(Compound::Parens(vec![dur(4), num(0), num(4)])),
            Exp::Compound(Compound::Parens(vec![dur(4), num(7)])),
        ]))],
    };
    let state = compose_program(program).expect("composes");
    let tracks = schedule(&state).expect("schedules");
    assert_eq!(tracks.len(), 1);
    let track = &tracks[0];
    assert_eq!(track[0].delta, 0);
    assert!(matches!(track[0].instruction, Instruction::Midi(MidiMessage::ProgramChange { program: 0 })));
    match &track[1].instruction {
        Instruction::Meta(MetaMessage::InstrumentName(n)) => assert_eq!(n.as_slice(), b"Piano"),
        _ => panic!("the instrument name follows the program change"),
    }
    assert!(matches!(track[2].instruction, Instruction::Meta(MetaMessage::Tempo(500_000))));
    let keys: Vec<u8> = track
        .iter()
        .filter_map(|e| match e.instruction {
            Instruction::Midi(MidiMessage::NoteOn { key, vel }) if vel > 0 => Some(key),
            _ => None,
        })
        .collect();
    assert_eq!(keys, vec![60, 67, 64, 67]);
    assert!(matches!(track.last().expect("events").instruction, Instruction::Meta(MetaMessage::EndOfTrack)));
}

#[test]
fn monads_bind_and_lists_split() {
    let m = Monad::ret(3u8).bind(|x| Monad::ret(x + 1));
    assert_eq!(m.0, 4);
    assert_eq!(tail(vec![1, 2, 3]), vec![2, 3]);
    assert!(tail::<u8>(vec![]).is_empty());
    assert_eq!(head(vec![7, 8]), 7);
    assert_eq!(head::<u8>(vec![]), 0);
}

#[test]
fn rendered_deltas_add_up_to_each_time() {
    let sch = vec![
        (0u64, vec![Instruction::Midi(MidiMessage::NoteOn { key: 60, vel: 1 })]),
        (25u64, vec![Instruction::Midi(MidiMessage::NoteOn { key: 60, vel: 0 })]),
        (25u64, vec![Instruction::Midi(MidiMessage::NoteOn { key: 62, vel: 1 })]),
        (90u64, vec![
            Instruction::Midi(MidiMessage::NoteOn { key: 62, vel: 0 }),
            Instruction::Midi(MidiMessage::NoteOn { key: 64, vel: 1 }),
        ]),
    ];
    let tracks = render_tracks(sch);
    let deltas: Vec<u32> = tracks[0].iter().map(|e| e.delta).collect();
    assert_eq!(deltas, vec![0, 25, 0, 65, 0]);
    let running: Vec<u32> = deltas
        .iter()
        .scan(0u32, |acc, d| {
            *acc += d;
            Some(*acc)
        })
        .collect();
    assert_eq!(running, vec![0, 25, 25, 90, 90]);
}

#[test]
fn head_and_tail_give_the_list_back() {
    let v = vec![4u8, 5, 6];
    let mut joined = vec![head(v.clone())];
    joined.extend(tail(v.clone()));
    assert_eq!(joined, v);
}

#[test]
fn binding_twice_is_binding_the_composition() {
    let f = |x: u32| Monad::ret(x * 2);
    let g = |x: u32| Monad::ret(x + 3);
    let left = Monad::ret(5u32).bind(f).bind(g);
    let right = Monad::ret(5u32).bind(|x| f(x).bind(g));
    assert_eq!(left.0, right.0);
    assert_eq!(left.0, 13);
}

#[test]
fn an_empty_timeline_schedules_the_header_and_the_end() {
    let state = State::new();
    let tracks = schedule(&state).expect("schedules");
    let track = &tracks[0];
    assert_eq!(track.len(), 4);
    assert!(track.iter().all(|e| e.delta == 0));
    assert!(matches!(track[3].instruction, Instruction::Meta(MetaMessage::EndOfTrack)));
}

#[test]
fn adding_a_function_to_a_monad_binds_it() {
    let m = Monad::ret(3u8) + (|x: u8| Monad::ret(x + 1));
    assert_eq!(m.0, 4);
    let n = m + (|x: u8| Monad::ret(u32::from(x) * 10));
    assert_eq!(n.0, 40);
}
