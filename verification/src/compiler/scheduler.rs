//! Turning the timeline into MIDI events: a schedule of instructions by tick,
//! and the track events with their delta times.
use crate::compiler::codegen::arena::{rows, rows_or_empty, KeyMap};
use crate::compiler::codegen::fraction::Fraction;
use crate::compiler::codegen::state::{timeline_sorted, State};
use crate::compiler::codegen::utils::{length_to_ticks, spec_ticks};
use crate::compiler::codegen::{
    Ctx, Instruction, Length, MetaMessage, MidiMessage, Mpb, Pc, Prog, Register, Slice, Velocity, PPQ,
};
use vstd::prelude::*;

verus! {

/// A time in MIDI ticks.
pub type Ticks = u64;

/// The schedule being built: the current program, tempo and clock, and the
/// instructions by tick.
#[derive(Debug)]
pub struct Scheduler {
    prog: u8,
    tempo: Mpb,
    clock: Ticks,
    schedule: Vec<(Ticks, Vec<Instruction>)>,
    instruments: KeyMap<Prog, Vec<u8>>,
    event_idx: usize,
}

/// The times of a schedule are strictly increasing.
pub open spec fn schedule_sorted(s: Seq<(u64, Seq<Instruction>)>) -> bool {
    forall|i: int, j: int| 0 <= i < j < s.len() ==> (#[trigger] s[i]).0 < (#[trigger] s[j]).0
}

/// `p` is where time `t` goes in a sorted schedule.
pub open spec fn is_slot(s: Seq<(u64, Seq<Instruction>)>, t: u64, p: int) -> bool {
    &&& 0 <= p <= s.len()
    &&& forall|i: int| 0 <= i < p ==> (#[trigger] s[i]).0 < t
    &&& p < s.len() ==> s[p].0 >= t
}

/// How many times of a schedule come before `t`, counted from the start.
pub open spec fn slot(s: Seq<(u64, Seq<Instruction>)>, t: u64) -> int
    decreases s.len(),
{
    if s.len() == 0 {
        0
    } else if s[0].0 < t {
        1 + slot(s.drop_first(), t)
    } else {
        0
    }
}

/// `ins` added at time `t`: last among the instructions of `t`.
pub open spec fn sched_insert(s: Seq<(u64, Seq<Instruction>)>, t: u64, ins: Instruction) -> Seq<(u64, Seq<Instruction>)> {
    let p = slot(s, t);
    if p < s.len() && s[p].0 == t {
        s.update(p, (t, s[p].1.push(ins)))
    } else {
        s.insert(p, (t, seq![ins]))
    }
}

/// The place of a time lies within the schedule.
proof fn lemma_slot_bounds(s: Seq<(u64, Seq<Instruction>)>, t: u64)
    ensures
        0 <= slot(s, t) <= s.len(),
    decreases s.len(),
{
    if s.len() > 0 {
        lemma_slot_bounds(s.drop_first(), t);
    }
}

/// In a sorted schedule, the place of a time is the count of earlier times.
proof fn lemma_slot(s: Seq<(u64, Seq<Instruction>)>, t: u64, p: int)
    requires
        is_slot(s, t, p),
    ensures
        p == slot(s, t),
    decreases s.len(),
{
    if s.len() > 0 {
        if s[0].0 < t {
            if p == 0 {
                assert(s[0].0 >= t);
            }
            let d = s.drop_first();
            assert forall|i: int| 0 <= i < p - 1 implies (#[trigger] d[i]).0 < t by {
                assert(d[i] == s[i + 1]);
            }
            if p - 1 < d.len() {
                assert(d[p - 1] == s[p]);
            }
            lemma_slot(d, t, p - 1);
        } else {
            if p > 0 {
                assert(s[0].0 < t);
            }
        }
    }
}

impl Scheduler {
    pub closed spec fn spec_prog(&self) -> u8 {
        self.prog
    }

    pub closed spec fn spec_tempo(&self) -> Mpb {
        self.tempo
    }

    pub closed spec fn spec_clock(&self) -> u64 {
        self.clock
    }

    pub closed spec fn spec_schedule(&self) -> Seq<(u64, Seq<Instruction>)> {
        self.schedule@.map_values(|e: (u64, Vec<Instruction>)| (e.0, e.1@))
    }

    pub closed spec fn spec_instruments(&self) -> Map<Seq<int>, Seq<u8>> {
        self.instruments@.map_values(|v: Vec<u8>| v@)
    }

    pub closed spec fn spec_event_idx(&self) -> usize {
        self.event_idx
    }

    /// The times of the schedule are strictly increasing.
    pub open spec fn wf(&self) -> bool {
        schedule_sorted(self.spec_schedule())
    }

    /// Nothing but the schedule and the count of events changed.
    pub open spec fn same_settings(&self, o: &Scheduler) -> bool {
        &&& self.spec_prog() == o.spec_prog()
        &&& self.spec_tempo() == o.spec_tempo()
        &&& self.spec_clock() == o.spec_clock()
    }

    /// An empty schedule at tick 0, program 0, 120 beats per minute.
    pub fn default() -> (r: Scheduler)
        ensures
            r.wf(),
            r.spec_prog() == 0,
            r.spec_tempo() == Mpb(Fraction { numer: 500_000, denom: 1 }),
            r.spec_clock() == 0,
            r.spec_schedule().len() == 0,
            r.spec_event_idx() == 0,
    {
        let r = Scheduler {
            prog: 0,
            tempo: Mpb::default(),
            clock: 0,
            schedule: Vec::new(),
            instruments: KeyMap::new(),
            event_idx: 0,
        };
        proof {
            assert(r.spec_schedule() =~= Seq::empty());
        }
        r
    }

    /// Moves the clock `ticks` ahead.
    pub fn forward(&mut self, ticks: u64)
        requires
            old(self).spec_clock() + ticks <= u64::MAX,
        ensures
            final(self).spec_clock() == old(self).spec_clock() + ticks,
            final(self).spec_prog() == old(self).spec_prog(),
            final(self).spec_tempo() == old(self).spec_tempo(),
            final(self).spec_schedule() == old(self).spec_schedule(),
            final(self).spec_event_idx() == old(self).spec_event_idx(),
    {
        self.clock = self.clock + ticks;
    }

    /// Moves the clock `ticks` back.
    pub fn rewind(&mut self, ticks: u64)
        requires
            old(self).spec_clock() >= ticks,
        ensures
            final(self).spec_clock() == old(self).spec_clock() - ticks,
            final(self).spec_prog() == old(self).spec_prog(),
            final(self).spec_tempo() == old(self).spec_tempo(),
            final(self).spec_schedule() == old(self).spec_schedule(),
            final(self).spec_event_idx() == old(self).spec_event_idx(),
    {
        self.clock = self.clock - ticks;
    }

    /// Sets the clock to `ticks`.
    pub fn to(&mut self, ticks: u64)
        ensures
            final(self).spec_clock() == ticks,
            final(self).spec_prog() == old(self).spec_prog(),
            final(self).spec_tempo() == old(self).spec_tempo(),
            final(self).spec_schedule() == old(self).spec_schedule(),
            final(self).spec_event_idx() == old(self).spec_event_idx(),
    {
        self.clock = ticks;
    }

    /// The clock.
    pub fn ticks(&self) -> (r: u64)
        ensures
            r == self.spec_clock(),
    {
        self.clock
    }

    /// Sets the clock back to 0.
    pub fn reset(&mut self)
        ensures
            final(self).spec_clock() == 0,
            final(self).spec_prog() == old(self).spec_prog(),
            final(self).spec_tempo() == old(self).spec_tempo(),
            final(self).spec_schedule() == old(self).spec_schedule(),
            final(self).spec_event_idx() == old(self).spec_event_idx(),
    {
        self.clock = 0;
    }

    /// How many instructions were added.
    pub fn event_index(&self) -> (r: usize)
        ensures
            r == self.spec_event_idx(),
    {
        self.event_idx
    }

    /// The current tempo.
    pub fn tempo(&self) -> (r: Mpb)
        ensures
            r == self.spec_tempo(),
    {
        self.tempo
    }

    /// The instructions by tick, in increasing order of ticks.
    pub fn schedule(&self) -> (r: &Vec<(Ticks, Vec<Instruction>)>)
        ensures
            r@.map_values(|e: (u64, Vec<Instruction>)| (e.0, e.1@)) == self.spec_schedule(),
    {
        &self.schedule
    }

    /// The instruments the scheduler names by program (none are ever added).
    pub fn instruments(&self) -> (r: &KeyMap<Prog, Vec<u8>>)
        ensures
            r@.map_values(|v: Vec<u8>| v@) == self.spec_instruments(),
    {
        &self.instruments
    }

    /// Adds `instruction` at tick `time`, last among the instructions there.
    pub fn add_instruction(&mut self, time: u64, instruction: Instruction)
        requires
            old(self).wf(),
            old(self).spec_event_idx() < usize::MAX,
        ensures
            final(self).wf(),
            final(self).spec_schedule() == sched_insert(old(self).spec_schedule(), time, instruction),
            final(self).spec_event_idx() == old(self).spec_event_idx() + 1,
            final(self).same_settings(old(self)),
    {
        let ghost s = self.spec_schedule();
        let mut i: usize = 0;
        while i < self.schedule.len() && self.schedule[i].0 < time
            invariant
                i <= self.schedule@.len(),
                s == self.spec_schedule(),
                s.len() == self.schedule@.len(),
                forall|j: int| 0 <= j < i ==> (#[trigger] s[j]).0 < time,
            decreases self.schedule@.len() - i,
        {
            proof {
                assert(s[i as int].0 == self.schedule@[i as int].0);
            }
            i = i + 1;
        }
        proof {
            if i < s.len() {
                assert(s[i as int].0 == self.schedule@[i as int].0);
            }
            assert(is_slot(s, time, i as int));
            lemma_slot(s, time, i as int);
        }
        if i < self.schedule.len() && self.schedule[i].0 == time {
            let (t, mut list) = self.schedule.remove(i);
            proof {
                assert(s[i as int] == (t, list@));
            }
            list.push(instruction);
            self.schedule.insert(i, (t, list));
            proof {
                assert(self.spec_schedule() =~= s.update(i as int, (time, s[i as int].1.push(instruction))));
            }
        } else {
            let mut list: Vec<Instruction> = Vec::new();
            list.push(instruction);
            proof {
                assert(list@ =~= seq![instruction]);
            }
            self.schedule.insert(i, (time, list));
            proof {
                let s2 = self.spec_schedule();
                assert(s2 =~= s.insert(i as int, (time, seq![instruction])));
                assert forall|a: int, b: int| 0 <= a < b < s2.len() implies (#[trigger] s2[a]).0 < (#[trigger] s2[b]).0 by {
                    if a < i && b > i {
                        assert(s[a].0 < time);
                        assert(s2[b] == s[b - 1]);
                        if i < s.len() {
                            assert(s[i as int].0 > time);
                            if b - 1 > i {
                                assert(s[i as int].0 < s[b - 1].0);
                            }
                        }
                    } else if a == i && b > i {
                        if i < s.len() {
                            assert(s[i as int].0 > time);
                            if b - 1 > i {
                                assert(s[i as int].0 < s[b - 1].0);
                            }
                        }
                    } else if a > i {
                        assert(s2[a] == s[a - 1]);
                        assert(s2[b] == s[b - 1]);
                    }
                }
            }
        }
        self.event_idx = self.event_idx + 1;
    }
}

impl Scheduler {
    /// Changes the tempo: when `mpb` is a different number, a tempo event of
    /// its whole microseconds (low 24 bits) is added at the clock.
    pub fn set_tempo(&mut self, mpb: Mpb)
        requires
            old(self).wf(),
            !old(self).spec_tempo().0.spec_same(mpb.0) ==> {
                &&& mpb.0.wf()
                &&& mpb.0.spec_trunc() <= u32::MAX
                &&& old(self).spec_event_idx() < usize::MAX
            },
        ensures
            final(self).wf(),
            old(self).spec_tempo().0.spec_same(mpb.0) ==> *final(self) == *old(self),
            !old(self).spec_tempo().0.spec_same(mpb.0) ==> {
                &&& final(self).spec_schedule() == sched_insert(
                    old(self).spec_schedule(),
                    old(self).spec_clock(),
                    Instruction::Meta(MetaMessage::Tempo((mpb.0.spec_trunc() % 0x100_0000) as u32)),
                )
                &&& final(self).spec_tempo() == mpb
                &&& final(self).spec_event_idx() == old(self).spec_event_idx() + 1
                &&& final(self).spec_clock() == old(self).spec_clock()
                &&& final(self).spec_prog() == old(self).spec_prog()
            },
    {
        if !self.tempo.0.same(&mpb.0) {
            let t = mpb.0.to_integer();
            let v: u32 = ((t as u32) as u64 % 0x100_0000) as u32;
            let time = self.clock;
            self.add_instruction(time, Instruction::Meta(MetaMessage::Tempo(v)));
            self.tempo = mpb;
        }
    }

    /// Changes the program: when `program` differs from the current one, a
    /// program change is added at the clock and, when `state` names the
    /// program, its name at tick 0.
    pub fn set_program(&mut self, program: Prog, state: &State)
        requires
            old(self).wf(),
            state.wf(),
            old(self).spec_event_idx() + 2 <= usize::MAX,
        ensures
            final(self).wf(),
            old(self).spec_prog() == program.0 ==> *final(self) == *old(self),
            final(self).spec_event_idx() <= old(self).spec_event_idx() + 2,
            old(self).spec_prog() != program.0 ==> {
                &&& final(self).spec_prog() == program.0
                &&& final(self).spec_tempo() == old(self).spec_tempo()
                &&& final(self).spec_clock() == old(self).spec_clock()
                &&& ({
                    let mid = sched_insert(
                        old(self).spec_schedule(),
                        old(self).spec_clock(),
                        Instruction::Midi(MidiMessage::ProgramChange { program: (program.0 % 128) as u8 }),
                    );
                    if state.spec_instruments().contains_key(seq![program.0 as int]) {
                        exists|name: Vec<u8>| name@ == state.spec_instruments()[seq![program.0 as int]] && final(self).spec_schedule() == #[trigger] sched_insert(
                            mid,
                            0,
                            Instruction::Meta(MetaMessage::InstrumentName(name)),
                        )
                    } else {
                        final(self).spec_schedule() == mid
                    }
                })
            },
    {
        if self.prog != program.0 {
            self.prog = program.0;
            let time = self.clock;
            let ghost s0 = self.spec_schedule();
            self.add_instruction(time, Instruction::Midi(MidiMessage::ProgramChange { program: program.0 % 128 }));
            let ghost mid = self.spec_schedule();
            match state.instruments().get(&program) {
                Some(bytes) => {
                    let name = copy_bytes(bytes);
                    proof {
                        assert(state.spec_instruments().contains_key(seq![program.0 as int]));
                        assert(name@ == state.spec_instruments()[seq![program.0 as int]]);
                    }
                    let ghost gname = name;
                    self.add_instruction(0, Instruction::Meta(MetaMessage::InstrumentName(name)));
                    proof {
                        assert(self.spec_schedule() == sched_insert(mid, 0, Instruction::Meta(MetaMessage::InstrumentName(gname))));
                    }
                },
                None => {
                    proof {
                        assert(!state.spec_instruments().contains_key(seq![program.0 as int]));
                    }
                },
            }
        }
    }

    /// Adds the instrument name `name` at tick 0.
    pub fn set_instrument(&mut self, name: Vec<u8>)
        requires
            old(self).wf(),
            old(self).spec_event_idx() < usize::MAX,
        ensures
            final(self).wf(),
            final(self).spec_schedule() == sched_insert(old(self).spec_schedule(), 0, Instruction::Meta(MetaMessage::InstrumentName(name))),
            final(self).spec_event_idx() == old(self).spec_event_idx() + 1,
            final(self).same_settings(old(self)),
    {
        self.add_instruction(0, Instruction::Meta(MetaMessage::InstrumentName(name)));
    }
}

/// The octave above `r`, the way `register + 1` computes it.
pub open spec fn octave_above(r: Register) -> int {
    match r {
        Register::Reg(n) => n + 1,
        Register::Nothing => 1,
    }
}

/// The whole part of a pitch class, at most 255; 0 for a rest.
pub open spec fn pc_floor(pc: Pc) -> int {
    match pc {
        Pc::Class(f) => if f.numer as int / f.denom as int > 255 { 255 } else { f.numer as int / f.denom as int },
        Pc::Nothing => 0,
    }
}

/// The byte of the octave above `r`.
pub open spec fn octave_byte(r: Register) -> int {
    (octave_above(r) + 256) % 256
}

/// The note `pc` in register `r` can be computed: the octave above fits in
/// a signed byte, and twelve times it plus the whole part of the pitch class
/// in a byte.
pub open spec fn key_ok(pc: Pc, r: Register) -> bool {
    &&& pc.wf()
    &&& octave_above(r) <= 127
    &&& octave_byte(r) * 12 + pc_floor(pc) <= 255
}

/// The MIDI key of `pc` in register `r`, low 7 bits.
pub open spec fn note_key(pc: Pc, r: Register) -> u8 {
    ((octave_byte(r) * 12 + pc_floor(pc)) % 128) as u8
}

/// The MIDI velocity of `pc` played at `v`: 0 for a rest, low 7 bits.
pub open spec fn note_vel(pc: Pc, v: Velocity) -> u8 {
    match pc {
        Pc::Nothing => 0,
        Pc::Class(_) => v.0 % 128,
    }
}

/// The pitch class lies strictly between 0 and 1, and so bends the note.
pub open spec fn bends(pc: Pc) -> bool {
    match pc {
        Pc::Class(f) => 0 < f.numer && f.numer < f.denom,
        Pc::Nothing => false,
    }
}

/// The schedule after one note at `clock` lasting `ticks`: its start, a bend
/// when the pitch class bends it, and its end.
pub open spec fn note_added(s: Seq<(u64, Seq<Instruction>)>, clock: u64, pc: Pc, r: Register, v: Velocity, ticks: int) -> Seq<(u64, Seq<Instruction>)> {
    let key = note_key(pc, r);
    let s1 = sched_insert(s, clock, Instruction::Midi(MidiMessage::NoteOn { key, vel: note_vel(pc, v) }));
    let s2 = if bends(pc) {
        sched_insert(s1, clock, Instruction::Midi(MidiMessage::PitchBend { bend: 0x2001 }))
    } else {
        s1
    };
    sched_insert(s2, (clock + ticks) as u64, Instruction::Midi(MidiMessage::NoteOn { key, vel: 0 }))
}

/// The ticks of note `i`: its length, taken in turn, at the tempo that goes
/// with that length.
pub open spec fn note_ticks(lens: Seq<Length>, tempos: Seq<Mpb>, i: int) -> int {
    let b = i % (lens.len() as int);
    spec_ticks(lens[b], tempos[b % (tempos.len() as int)])
}

/// The schedule after the first `k` notes of a chord.
pub open spec fn notes_added(
    s: Seq<(u64, Seq<Instruction>)>,
    clock: u64,
    pcs: Seq<Pc>,
    regs: Seq<Register>,
    vels: Seq<Velocity>,
    lens: Seq<Length>,
    tempos: Seq<Mpb>,
    k: nat,
) -> Seq<(u64, Seq<Instruction>)>
    decreases k,
{
    if k == 0 {
        s
    } else {
        let i = k - 1;
        note_added(
            notes_added(s, clock, pcs, regs, vels, lens, tempos, (k - 1) as nat),
            clock,
            pcs[i],
            regs[i % (regs.len() as int)],
            vels[i % (vels.len() as int)],
            note_ticks(lens, tempos, i),
        )
    }
}

/// How many notes a chord plays: one per pitch class, none when there are
/// no lengths, tempi, velocities or registers to go with them.
pub open spec fn note_count(pcs: Seq<Pc>, regs: Seq<Register>, vels: Seq<Velocity>, lens: Seq<Length>, tempos: Seq<Mpb>) -> nat {
    if lens.len() == 0 || tempos.len() == 0 || vels.len() == 0 || regs.len() == 0 {
        0
    } else {
        pcs.len()
    }
}

/// The schedule `s` holds the instruction `ins` at the time `t`.
pub open spec fn has_event(s: Seq<(u64, Seq<Instruction>)>, t: u64, ins: Instruction) -> bool {
    exists|j: int, k: int| 0 <= j < s.len() && 0 <= k < s[j].1.len() && s[j].0 == t && #[trigger] s[j].1[k] == ins
}

/// Inserting an instruction keeps every instruction already scheduled, and
/// schedules the new one at its time.
proof fn lemma_insert_has(s: Seq<(u64, Seq<Instruction>)>, t: u64, x: Instruction, t2: u64, y: Instruction)
    ensures
        has_event(sched_insert(s, t, x), t, x),
        has_event(s, t2, y) ==> has_event(sched_insert(s, t, x), t2, y),
{
    lemma_slot_bounds(s, t);
    let p = slot(s, t);
    let n = sched_insert(s, t, x);
    if p < s.len() && s[p].0 == t {
        assert(n[p].1[s[p].1.len() as int] == x);
        if has_event(s, t2, y) {
            let (j, k) = choose|j: int, k: int| 0 <= j < s.len() && 0 <= k < s[j].1.len() && s[j].0 == t2 && #[trigger] s[j].1[k] == y;
            assert(n[j].1[k] == y);
        }
    } else {
        assert(n[p].1[0] == x);
        if has_event(s, t2, y) {
            let (j, k) = choose|j: int, k: int| 0 <= j < s.len() && 0 <= k < s[j].1.len() && s[j].0 == t2 && #[trigger] s[j].1[k] == y;
            if j < p {
                assert(n[j].1[k] == y);
            } else {
                assert(n[j + 1].1[k] == y);
            }
        }
    }
}

/// Adding a note keeps every instruction already scheduled, and starts the
/// note at the clock with its key and velocity.
proof fn lemma_note_added_has(s: Seq<(u64, Seq<Instruction>)>, clock: u64, pc: Pc, r: Register, v: Velocity, ticks: int, t2: u64, y: Instruction)
    ensures
        ({
            let on = Instruction::Midi(MidiMessage::NoteOn { key: note_key(pc, r), vel: note_vel(pc, v) });
            has_event(note_added(s, clock, pc, r, v, ticks), clock, on)
        }),
        ({
            let off = Instruction::Midi(MidiMessage::NoteOn { key: note_key(pc, r), vel: 0 });
            has_event(note_added(s, clock, pc, r, v, ticks), (clock + ticks) as u64, off)
        }),
        has_event(s, t2, y) ==> has_event(note_added(s, clock, pc, r, v, ticks), t2, y),
{
    let on = Instruction::Midi(MidiMessage::NoteOn { key: note_key(pc, r), vel: note_vel(pc, v) });
    let off = Instruction::Midi(MidiMessage::NoteOn { key: note_key(pc, r), vel: 0 });
    let bend = Instruction::Midi(MidiMessage::PitchBend { bend: 0x2001 });
    let s1 = sched_insert(s, clock, on);
    lemma_insert_has(s, clock, on, t2, y);
    lemma_insert_has(s, clock, on, clock, on);
    let s2 = if bends(pc) { sched_insert(s1, clock, bend) } else { s1 };
    if bends(pc) {
        lemma_insert_has(s1, clock, bend, clock, on);
        lemma_insert_has(s1, clock, bend, t2, y);
    }
    lemma_insert_has(s2, (clock + ticks) as u64, off, clock, on);
    lemma_insert_has(s2, (clock + ticks) as u64, off, t2, y);
    lemma_insert_has(s2, (clock + ticks) as u64, off, clock, off);
}

/// Note `i` of a chord, once added, starts at the clock with its key and
/// velocity, and stays scheduled as the later notes are added.
proof fn lemma_notes_added_has(
    s: Seq<(u64, Seq<Instruction>)>,
    clock: u64,
    pcs: Seq<Pc>,
    regs: Seq<Register>,
    vels: Seq<Velocity>,
    lens: Seq<Length>,
    tempos: Seq<Mpb>,
    i: int,
    k: nat,
)
    requires
        0 <= i < k,
    ensures
        ({
            let on = Instruction::Midi(MidiMessage::NoteOn {
                key: note_key(pcs[i], regs[i % (regs.len() as int)]),
                vel: note_vel(pcs[i], vels[i % (vels.len() as int)]),
            });
            has_event(notes_added(s, clock, pcs, regs, vels, lens, tempos, k), clock, on)
        }),
        ({
            let off = Instruction::Midi(MidiMessage::NoteOn { key: note_key(pcs[i], regs[i % (regs.len() as int)]), vel: 0 });
            has_event(notes_added(s, clock, pcs, regs, vels, lens, tempos, k), (clock + note_ticks(lens, tempos, i)) as u64, off)
        }),
    decreases k,
{
    let off = Instruction::Midi(MidiMessage::NoteOn { key: note_key(pcs[i], regs[i % (regs.len() as int)]), vel: 0 });
    let on = Instruction::Midi(MidiMessage::NoteOn {
        key: note_key(pcs[i], regs[i % (regs.len() as int)]),
        vel: note_vel(pcs[i], vels[i % (vels.len() as int)]),
    });
    let prev = notes_added(s, clock, pcs, regs, vels, lens, tempos, (k - 1) as nat);
    let j = k - 1;
    if i < k - 1 {
        lemma_notes_added_has(s, clock, pcs, regs, vels, lens, tempos, i, (k - 1) as nat);
    }
    lemma_note_added_has(
        prev,
        clock,
        pcs[j],
        regs[j % (regs.len() as int)],
        vels[j % (vels.len() as int)],
        note_ticks(lens, tempos, j),
        clock,
        on,
    );
    lemma_note_added_has(
        prev,
        clock,
        pcs[j],
        regs[j % (regs.len() as int)],
        vels[j % (vels.len() as int)],
        note_ticks(lens, tempos, j),
        (clock + note_ticks(lens, tempos, i)) as u64,
        off,
    );
}

/// The register chooses the octave: every note of a chord that
/// `schedule_note` schedules, with pitch class `f` in register `n`, starts
/// at the clock as MIDI key `12 * (n + 1)` plus the whole part of `f`,
/// wherever that key fits in seven bits, with the velocity that goes with
/// it, and is silenced on that same key after its ticks. So one register up
/// is twelve keys up.
pub proof fn law_note_key_follows_register(
    s: Seq<(u64, Seq<Instruction>)>,
    clock: u64,
    pcs: Seq<Pc>,
    regs: Seq<Register>,
    vels: Seq<Velocity>,
    lens: Seq<Length>,
    tempos: Seq<Mpb>,
    i: int,
    n: i8,
    f: Fraction,
)
    requires
        0 <= i < note_count(pcs, regs, vels, lens, tempos),
        pcs[i] == Pc::Class(f),
        f.denom > 0,
        regs[i % (regs.len() as int)] == Register::Reg(n),
        0 <= n + 1,
        12 * (n + 1) + (f.numer as int / f.denom as int) < 128,
    ensures
        ({
            let on = Instruction::Midi(MidiMessage::NoteOn {
                key: (12 * (n + 1) + f.numer as int / f.denom as int) as u8,
                vel: vels[i % (vels.len() as int)].0 % 128,
            });
            has_event(notes_added(s, clock, pcs, regs, vels, lens, tempos, note_count(pcs, regs, vels, lens, tempos)), clock, on)
        }),
        ({
            let off = Instruction::Midi(MidiMessage::NoteOn { key: (12 * (n + 1) + f.numer as int / f.denom as int) as u8, vel: 0 });
            let end = (clock + note_ticks(lens, tempos, i)) as u64;
            has_event(notes_added(s, clock, pcs, regs, vels, lens, tempos, note_count(pcs, regs, vels, lens, tempos)), end, off)
        }),
{
    lemma_notes_added_has(s, clock, pcs, regs, vels, lens, tempos, i, note_count(pcs, regs, vels, lens, tempos));
    assert(octave_byte(Register::Reg(n)) == n + 1);
    assert(pc_floor(Pc::Class(f)) == f.numer as int / f.denom as int);
    let x = 12 * (n + 1) + f.numer as int / f.denom as int;
    assert(0 <= x < 128);
    assert(x % 128 == x);
}

/// The length and tempo of note `i` can be turned into ticks: the fractions
/// have nonzero denominators and the tempo is not zero.
pub open spec fn note_timing_ok(lens: Seq<Length>, tempos: Seq<Mpb>, i: int) -> bool {
    let b = i % (lens.len() as int);
    let t = tempos[b % (tempos.len() as int)];
    lens[b].wf() && t.0.wf() && t.0.numer > 0
}

/// The ticks of note `i` are computed without leaving `u64`.
pub open spec fn note_fits(lens: Seq<Length>, tempos: Seq<Mpb>, i: int) -> bool {
    let b = i % (lens.len() as int);
    let t = tempos[b % (tempos.len() as int)];
    match lens[b] {
        Length::MicroSeconds(f) => f.numer * t.0.denom * 25200 <= u64::MAX && f.denom * t.0.numer <= u64::MAX,
        Length::Nothing => true,
    }
}

/// Note `j` of a chord can be played from `clock`: its key can be computed,
/// and when its ticks can be, it ends by the last tick.
pub open spec fn note_ok(clock: u64, pcs: Seq<Pc>, regs: Seq<Register>, lens: Seq<Length>, tempos: Seq<Mpb>, j: int) -> bool {
    &&& key_ok(pcs[j], regs[j % (regs.len() as int)])
    &&& (note_timing_ok(lens, tempos, j) ==> clock + note_ticks(lens, tempos, j) <= u64::MAX)
}

/// The whole part of a pitch class, at most 255.
fn pc_floor_of(pc: &Pc) -> (r: u8)
    requires
        pc.wf(),
    ensures
        r == pc_floor(*pc),
{
    match pc {
        Pc::Class(f) => {
            let q = f.numer / f.denom;
            if q > 255 {
                255
            } else {
                q as u8
            }
        },
        Pc::Nothing => 0,
    }
}

impl Scheduler {
    /// Schedules a chord at the clock: each pitch class, with the register,
    /// velocity and length that go with it in turn, starts now and ends after
    /// its length at its tempo. Returns `false`, with only the notes before
    /// it scheduled, when a length cannot be turned into ticks.
    #[verifier::rlimit(40)]
    pub fn schedule_note(
        &mut self,
        pcs: Vec<Pc>,
        registers: Vec<Register>,
        velocities: Vec<Velocity>,
        lengths: Vec<Length>,
        tempos: Vec<Mpb>,
    ) -> (r: bool)
        requires
            old(self).wf(),
            old(self).spec_event_idx() + 3 * pcs@.len() <= usize::MAX,
            note_count(pcs@, registers@, velocities@, lengths@, tempos@) > 0 ==> forall|i: int| 0 <= i < pcs@.len() ==> #[trigger] note_ok(old(self).spec_clock(), pcs@, registers@, lengths@, tempos@, i),
        ensures
            final(self).wf(),
            final(self).same_settings(old(self)),
            (forall|i: int| 0 <= i < note_count(pcs@, registers@, velocities@, lengths@, tempos@) ==> note_timing_ok(lengths@, tempos@, i) && note_fits(lengths@, tempos@, i)) ==> r,
            r ==> final(self).spec_schedule() == notes_added(
                old(self).spec_schedule(),
                old(self).spec_clock(),
                pcs@,
                registers@,
                velocities@,
                lengths@,
                tempos@,
                note_count(pcs@, registers@, velocities@, lengths@, tempos@),
            ),
            note_count(pcs@, registers@, velocities@, lengths@, tempos@) == 0 ==> r && *final(self) == *old(self),
            final(self).spec_event_idx() <= old(self).spec_event_idx() + 3 * pcs@.len(),
    {
        let n: usize = if lengths.len() == 0 || tempos.len() == 0 || velocities.len() == 0 || registers.len() == 0 {
            0
        } else {
            pcs.len()
        };
        if n == 0 {
            return true;
        }
        let ghost o = *self;
        let mut i: usize = 0;
        while i < n
            invariant
                self.wf(),
                o == *old(self),
                i <= n,
                n == note_count(pcs@, registers@, velocities@, lengths@, tempos@),
                n > 0 ==> n == pcs@.len() && lengths@.len() > 0 && tempos@.len() > 0 && velocities@.len() > 0 && registers@.len() > 0,
                self.same_settings(&o),
                o.spec_event_idx() + 3 * pcs@.len() <= usize::MAX,
                self.spec_event_idx() <= o.spec_event_idx() + 3 * i,
                n > 0 ==> forall|j: int| 0 <= j < pcs@.len() ==> #[trigger] note_ok(o.spec_clock(), pcs@, registers@, lengths@, tempos@, j),
                self.spec_schedule() == notes_added(o.spec_schedule(), o.spec_clock(), pcs@, registers@, velocities@, lengths@, tempos@, i as nat),
            decreases n - i,
        {
            let pc = pcs[i];
            let reg = registers[i % registers.len()];
            let vel = velocities[i % velocities.len()];
            let b = i % lengths.len();
            let len = lengths[b];
            let tempo = tempos[b % tempos.len()];
            if !(len.as_ratio().denom > 0 && tempo.0.denom > 0 && tempo.0.numer > 0) {
                proof {
                    assert(!note_timing_ok(lengths@, tempos@, i as int));
                }
                return false;
            }
            let ticks = match length_to_ticks(len, tempo) {
                Some(t) => t,
                None => {
                    proof {
                        assert(!note_fits(lengths@, tempos@, i as int));
                    }
                    return false;
                },
            };
            proof {
                assert(note_ok(o.spec_clock(), pcs@, registers@, lengths@, tempos@, i as int));
                assert(key_ok(pcs@[i as int], registers@[i as int % (registers@.len() as int)]));
                assert(ticks == note_ticks(lengths@, tempos@, i as int));
            }
            let oct: i8 = match reg {
                Register::Reg(x) => x + 1,
                Register::Nothing => 1,
            };
            let ob: u8 = if oct >= 0 { oct as u8 } else { ((oct as i16) + 256) as u8 };
            let fl = pc_floor_of(&pc);
            let key: u8 = (ob * 12 + fl) % 128;
            let v: u8 = match pc {
                Pc::Nothing => 0,
                Pc::Class(_) => vel.0 % 128,
            };
            let bend = match pc {
                Pc::Class(f) => 0 < f.numer && f.numer < f.denom,
                Pc::Nothing => false,
            };
            let time = self.clock;
            self.add_instruction(time, Instruction::Midi(MidiMessage::NoteOn { key, vel: v }));
            if bend {
                self.add_instruction(time, Instruction::Midi(MidiMessage::PitchBend { bend: 0x2001 }));
            }
            let stop = time + ticks;
            self.add_instruction(stop, Instruction::Midi(MidiMessage::NoteOn { key, vel: 0 }));
            i = i + 1;
        }
        true
    }
}

/// One event of a track: the ticks since the previous event, and what happens.
#[derive(Debug)]
pub struct TrackEvent {
    pub delta: u32,
    pub instruction: Instruction,
}

/// The delta of the first event at time `t` after time `prev`: `t - prev`
/// as the low 32 bits of both give it, 0 when `prev` is later, low 28 bits.
pub open spec fn delta_of(prev: u64, t: u64) -> u32 {
    let t32 = t as int % 0x1_0000_0000;
    let p32 = prev as int % 0x1_0000_0000;
    ((t32 - (if p32 < t32 { p32 } else { t32 })) % 0x1000_0000) as u32
}

/// The events of one time of a schedule: the first with its delta, the rest
/// at once after it.
pub open spec fn events_at(delta: u32, ins: Seq<Instruction>) -> Seq<(u32, Instruction)> {
    Seq::new(ins.len(), |i: int| (if i == 0 { delta } else { 0u32 }, ins[i]))
}

/// The events of the first `k` times of a schedule, in order.
pub open spec fn rendered(s: Seq<(u64, Seq<Instruction>)>, k: nat) -> Seq<(u32, Instruction)>
    decreases k,
{
    if k == 0 {
        Seq::empty()
    } else {
        let prev = if k >= 2 { s[k - 2].0 } else { 0u64 };
        rendered(s, (k - 1) as nat) + events_at(delta_of(prev, s[k - 1].0), s[k - 1].1)
    }
}

/// The ticks that the events `evs` add up to.
pub open spec fn delta_total(evs: Seq<(u32, Instruction)>) -> int
    decreases evs.len(),
{
    if evs.len() == 0 {
        0
    } else {
        delta_total(evs.drop_last()) + evs.last().0
    }
}

proof fn lemma_delta_total_concat(a: Seq<(u32, Instruction)>, b: Seq<(u32, Instruction)>)
    ensures
        delta_total(a + b) == delta_total(a) + delta_total(b),
    decreases b.len(),
{
    if b.len() == 0 {
        assert(a + b =~= a);
    } else {
        lemma_delta_total_concat(a, b.drop_last());
        assert((a + b).drop_last() =~= a + b.drop_last());
    }
}

proof fn lemma_delta_total_events_at(d: u32, ins: Seq<Instruction>)
    requires
        ins.len() > 0,
    ensures
        delta_total(events_at(d, ins)) == d,
    decreases ins.len(),
{
    let e = events_at(d, ins);
    if ins.len() == 1 {
        assert(e.drop_last() =~= Seq::<(u32, Instruction)>::empty());
        assert(delta_total(e.drop_last()) == 0);
        assert(e.last().0 == d);
    } else {
        lemma_delta_total_events_at(d, ins.drop_last());
        assert(e.drop_last() =~= events_at(d, ins.drop_last()));
        assert(e.last().0 == 0u32);
    }
}

/// The deltas of a rendered schedule add up to each of its times: through
/// the events of the first `k` times they make the `k`-th time, when the
/// times do not decrease, stay below 2^28 ticks, and each has an instruction.
pub proof fn law_rendered_deltas_add_up(s: Seq<(u64, Seq<Instruction>)>, k: nat)
    requires
        1 <= k <= s.len(),
        forall|i: int| 0 <= i < s.len() ==> (#[trigger] s[i]).1.len() > 0 && s[i].0 < 0x1000_0000,
        forall|i: int, j: int| 0 <= i < j < s.len() ==> (#[trigger] s[i]).0 <= (#[trigger] s[j]).0,
    ensures
        delta_total(rendered(s, k)) == s[k - 1].0,
    decreases k,
{
    let prev = if k >= 2 { s[k - 2].0 } else { 0u64 };
    let t = s[k - 1].0;
    assert(s[k - 1].1.len() > 0);
    if k >= 2 {
        law_rendered_deltas_add_up(s, (k - 1) as nat);
        assert(s[k - 2].0 <= s[k - 1].0);
    }
    lemma_delta_total_concat(rendered(s, (k - 1) as nat), events_at(delta_of(prev, t), s[k - 1].1));
    lemma_delta_total_events_at(delta_of(prev, t), s[k - 1].1);
    assert(t as int % 0x1_0000_0000 == t);
    assert(prev as int % 0x1_0000_0000 == prev);
    assert((t - prev) % 0x1000_0000 == t - prev);
}

/// The track events of a schedule, as one track: each time's instructions
/// in order, the first of them with the ticks since the previous time.
pub fn render_tracks(schedule: Vec<(u64, Vec<Instruction>)>) -> (r: Vec<Vec<TrackEvent>>)
    ensures
        r@.len() == 1,
        r@[0]@.map_values(|e: TrackEvent| (e.delta, e.instruction)) == rendered(
            schedule@.map_values(|e: (u64, Vec<Instruction>)| (e.0, e.1@)),
            schedule@.len(),
        ),
{
    let ghost sv = schedule@.map_values(|e: (u64, Vec<Instruction>)| (e.0, e.1@));
    let mut track: Vec<TrackEvent> = Vec::new();
    let mut prev_time: u64 = 0;
    let mut rest = schedule;
    let n = rest.len();
    let mut k: usize = 0;
    while k < n
        invariant
            k <= n,
            n == sv.len(),
            rest@.len() == n - k,
            forall|j: int| 0 <= j < rest@.len() ==> (#[trigger] rest@[j]).0 == sv[k + j].0 && rest@[j].1@ == sv[k + j].1,
            prev_time == (if k >= 1 { sv[k - 1].0 } else { 0u64 }),
            track@.map_values(|e: TrackEvent| (e.delta, e.instruction)) == rendered(sv, k as nat),
        decreases n - k,
    {
        let ghost rest0 = rest@;
        let (time, mut instructions) = rest.remove(0);
        proof {
            assert(time == sv[k as int].0 && instructions@ == sv[k as int].1);
            assert forall|j: int| 0 <= j < rest@.len() implies (#[trigger] rest@[j]).0 == sv[k + 1 + j].0 && rest@[j].1@ == sv[k + 1 + j].1 by {
                assert(rest@[j] == rest0[j + 1]);
            }
        }
        let t32: u32 = (time % 0x1_0000_0000) as u32;
        let p32: u32 = (prev_time % 0x1_0000_0000) as u32;
        let m = if p32 < t32 { p32 } else { t32 };
        let mut delta: u32 = (t32 - m) % 0x1000_0000;
        let ghost base = track@.map_values(|e: TrackEvent| (e.delta, e.instruction));
        let ghost ins = instructions@;
        let ghost d0 = delta;
        proof {
            assert(d0 == delta_of(prev_time, time));
        }
        let cnt = instructions.len();
        let mut i: usize = 0;
        while i < cnt
            invariant
                i <= cnt,
                cnt == ins.len(),
                instructions@.len() == cnt - i,
                forall|j: int| 0 <= j < instructions@.len() ==> (#[trigger] instructions@[j]) == ins[i + j],
                delta == (if i == 0 { d0 } else { 0u32 }),
                track@.map_values(|e: TrackEvent| (e.delta, e.instruction)) == base + events_at(d0, ins).take(i as int),
            decreases cnt - i,
        {
            let ghost inst0 = instructions@;
            let instruction = instructions.remove(0);
            proof {
                assert(instruction == ins[i as int]);
                assert forall|j: int| 0 <= j < instructions@.len() implies (#[trigger] instructions@[j]) == ins[i + 1 + j] by {
                    assert(instructions@[j] == inst0[j + 1]);
                }
            }
            let ghost before = track@;
            track.push(TrackEvent { delta, instruction });
            proof {
                let f = |e: TrackEvent| (e.delta, e.instruction);
                assert(track@ == before.push(TrackEvent { delta, instruction }));
                assert(track@.map_values(f) =~= before.map_values(f).push((delta, instruction)));
                assert(events_at(d0, ins)[i as int] == (delta, instruction));
                assert(events_at(d0, ins).take(i + 1) =~= events_at(d0, ins).take(i as int).push((delta, instruction)));
                assert(track@.map_values(f) =~= base + events_at(d0, ins).take(i + 1));
            }
            delta = 0;
            i = i + 1;
        }
        proof {
            assert(events_at(d0, ins).take(cnt as int) =~= events_at(d0, ins));
            assert(rendered(sv, (k + 1) as nat) == rendered(sv, k as nat) + events_at(delta_of(prev_time, sv[k as int].0), sv[k as int].1));
        }
        prev_time = time;
        k = k + 1;
    }
    let mut tracks: Vec<Vec<TrackEvent>> = Vec::new();
    tracks.push(track);
    tracks
}

/// The first instructions of a schedule are `head`, at tick 0.
pub open spec fn starts_with(s: Seq<(u64, Seq<Instruction>)>, head: Seq<Instruction>) -> bool {
    s.len() > 0 && s[0].0 == 0 && s[0].1.len() >= head.len() && s[0].1.take(head.len() as int) == head
}

/// The number of instructions of a schedule.
pub open spec fn sched_size(s: Seq<(u64, Seq<Instruction>)>) -> nat
    decreases s.len(),
{
    if s.len() == 0 {
        0
    } else {
        sched_size(s.drop_last()) + s.last().1.len()
    }
}

proof fn lemma_size_update(s: Seq<(u64, Seq<Instruction>)>, p: int, g: (u64, Seq<Instruction>))
    requires
        0 <= p < s.len(),
    ensures
        sched_size(s.update(p, g)) + s[p].1.len() == sched_size(s) + g.1.len(),
    decreases s.len(),
{
    if p == s.len() - 1 {
        assert(s.update(p, g).drop_last() =~= s.drop_last());
    } else {
        lemma_size_update(s.drop_last(), p, g);
        assert(s.update(p, g).drop_last() =~= s.drop_last().update(p, g));
    }
}

proof fn lemma_size_insert(s: Seq<(u64, Seq<Instruction>)>, p: int, g: (u64, Seq<Instruction>))
    requires
        0 <= p <= s.len(),
    ensures
        sched_size(s.insert(p, g)) == sched_size(s) + g.1.len(),
    decreases s.len(),
{
    if p == s.len() {
        assert(s.insert(p, g).drop_last() =~= s);
    } else {
        lemma_size_insert(s.drop_last(), p, g);
        assert(s.insert(p, g).drop_last() =~= s.drop_last().insert(p, g));
        assert(s.insert(p, g).last() == s.last());
    }
}

/// Adding an instruction adds one to the size of a schedule.
proof fn lemma_insert_size(s: Seq<(u64, Seq<Instruction>)>, t: u64, ins: Instruction)
    ensures
        sched_size(sched_insert(s, t, ins)) == sched_size(s) + 1,
{
    lemma_slot_bounds(s, t);
    let p = slot(s, t);
    if p < s.len() && s[p].0 == t {
        lemma_size_update(s, p, (t, s[p].1.push(ins)));
    } else {
        lemma_size_insert(s, p, (t, seq![ins]));
    }
}

/// Each note adds at least two instructions: its start and its end.
proof fn lemma_notes_size(
    s: Seq<(u64, Seq<Instruction>)>,
    clock: u64,
    pcs: Seq<Pc>,
    regs: Seq<Register>,
    vels: Seq<Velocity>,
    lens: Seq<Length>,
    tempos: Seq<Mpb>,
    k: nat,
)
    ensures
        sched_size(notes_added(s, clock, pcs, regs, vels, lens, tempos, k)) >= sched_size(s) + 2 * k,
    decreases k,
{
    if k > 0 {
        let i = k - 1;
        let prev = notes_added(s, clock, pcs, regs, vels, lens, tempos, (k - 1) as nat);
        lemma_notes_size(s, clock, pcs, regs, vels, lens, tempos, (k - 1) as nat);
        let pc = pcs[i];
        let r = regs[i % (regs.len() as int)];
        let v = vels[i % (vels.len() as int)];
        let key = note_key(pc, r);
        let s1 = sched_insert(prev, clock, Instruction::Midi(MidiMessage::NoteOn { key, vel: note_vel(pc, v) }));
        lemma_insert_size(prev, clock, Instruction::Midi(MidiMessage::NoteOn { key, vel: note_vel(pc, v) }));
        let s2 = if bends(pc) {
            sched_insert(s1, clock, Instruction::Midi(MidiMessage::PitchBend { bend: 0x2001 }))
        } else {
            s1
        };
        lemma_insert_size(s1, clock, Instruction::Midi(MidiMessage::PitchBend { bend: 0x2001 }));
        let ticks = note_ticks(lens, tempos, i);
        lemma_insert_size(s2, (clock + ticks) as u64, Instruction::Midi(MidiMessage::NoteOn { key, vel: 0 }));
    }
}

/// The events of the first `k` times of a schedule are its instructions.
proof fn lemma_rendered_len(s: Seq<(u64, Seq<Instruction>)>, k: nat)
    requires
        k <= s.len(),
    ensures
        rendered(s, k).len() == sched_size(s.take(k as int)),
    decreases k,
{
    if k > 0 {
        lemma_rendered_len(s, (k - 1) as nat);
        assert(s.take(k as int).drop_last() =~= s.take(k - 1));
        assert(s.take(k as int).last() == s[k - 1]);
    } else {
        assert(s.take(0) =~= Seq::<(u64, Seq<Instruction>)>::empty());
    }
}

/// The notes of a chord that the scheduler plays.
pub open spec fn slice_notes(sl: Slice) -> nat {
    note_count(sl.spec_pcs(), sl.spec_registers(), sl.spec_velocities(), sl.spec_lengths(), sl.spec_tempos())
}

/// The notes of the chords `sls`.
pub open spec fn slices_notes(sls: Seq<Slice>) -> nat
    decreases sls.len(),
{
    if sls.len() == 0 {
        0
    } else {
        slices_notes(sls.drop_last()) + slice_notes(sls.last())
    }
}

/// The notes of the first `k` times of a timeline.
pub open spec fn timeline_notes(tl: Seq<(Length, Seq<Slice>)>, k: int) -> nat
    decreases k,
{
    if k <= 0 {
        0
    } else {
        timeline_notes(tl, k - 1) + slices_notes(tl[k - 1].1)
    }
}

/// Two instructions are the same, instrument names compared by their bytes.
pub open spec fn ins_same(a: Instruction, b: Instruction) -> bool {
    match (a, b) {
        (Instruction::Meta(MetaMessage::InstrumentName(x)), Instruction::Meta(MetaMessage::InstrumentName(y))) => x@ == y@,
        _ => a == b,
    }
}

/// Two schedules are the same: the same times, each with the same
/// instructions in the same order.
pub open spec fn sched_same(a: Seq<(u64, Seq<Instruction>)>, b: Seq<(u64, Seq<Instruction>)>) -> bool {
    &&& a.len() == b.len()
    &&& forall|i: int| #![trigger a[i]] 0 <= i < a.len() ==> a[i].0 == b[i].0 && a[i].1.len() == b[i].1.len()
        && forall|j: int| 0 <= j < a[i].1.len() ==> ins_same(#[trigger] a[i].1[j], b[i].1[j])
}

/// Two lists of track events are the same: the same deltas and the same
/// instructions.
pub open spec fn events_same(a: Seq<(u32, Instruction)>, b: Seq<(u32, Instruction)>) -> bool {
    &&& a.len() == b.len()
    &&& forall|i: int| 0 <= i < a.len() ==> (#[trigger] a[i]).0 == b[i].0 && ins_same(a[i].1, b[i].1)
}

proof fn lemma_slot_same(a: Seq<(u64, Seq<Instruction>)>, b: Seq<(u64, Seq<Instruction>)>, t: u64)
    requires
        sched_same(a, b),
    ensures
        slot(a, t) == slot(b, t),
    decreases a.len(),
{
    if a.len() > 0 {
        assert(a[0].0 == b[0].0);
        assert(sched_same(a.drop_first(), b.drop_first())) by {
            assert forall|i: int| #![trigger a.drop_first()[i]] 0 <= i < a.drop_first().len() implies a.drop_first()[i].0 == b.drop_first()[i].0
                && a.drop_first()[i].1.len() == b.drop_first()[i].1.len() && forall|j: int| 0 <= j < a.drop_first()[i].1.len() ==> ins_same(
                #[trigger] a.drop_first()[i].1[j],
                b.drop_first()[i].1[j],
            ) by {
                assert(a[i + 1].0 == b[i + 1].0);
            }
        }
        lemma_slot_same(a.drop_first(), b.drop_first(), t);
    }
}

/// Adding the same instruction at the same time to the same schedules keeps
/// them the same.
proof fn lemma_insert_same(a: Seq<(u64, Seq<Instruction>)>, b: Seq<(u64, Seq<Instruction>)>, t: u64, x: Instruction, y: Instruction)
    requires
        sched_same(a, b),
        ins_same(x, y),
    ensures
        sched_same(sched_insert(a, t, x), sched_insert(b, t, y)),
{
    lemma_slot_same(a, b, t);
    lemma_slot_bounds(a, t);
    let p = slot(a, t);
    let ra = sched_insert(a, t, x);
    let rb = sched_insert(b, t, y);
    if p < a.len() && a[p].0 == t {
        assert(b[p].0 == t);
        assert forall|i: int| #![trigger ra[i]] 0 <= i < ra.len() implies ra[i].0 == rb[i].0 && ra[i].1.len() == rb[i].1.len()
            && forall|j: int| 0 <= j < ra[i].1.len() ==> ins_same(#[trigger] ra[i].1[j], rb[i].1[j]) by {
            assert(a[i].0 == b[i].0);
            if i == p {
                assert forall|j: int| 0 <= j < ra[i].1.len() implies ins_same(#[trigger] ra[i].1[j], rb[i].1[j]) by {
                    if j < a[i].1.len() {
                        assert(ins_same(a[i].1[j], b[i].1[j]));
                    }
                }
            } else {
                assert forall|j: int| 0 <= j < ra[i].1.len() implies ins_same(#[trigger] ra[i].1[j], rb[i].1[j]) by {
                    assert(ins_same(a[i].1[j], b[i].1[j]));
                }
            }
        }
    } else {
        if p < a.len() {
            assert(a[p].0 == b[p].0);
        }
        assert forall|i: int| #![trigger ra[i]] 0 <= i < ra.len() implies ra[i].0 == rb[i].0 && ra[i].1.len() == rb[i].1.len()
            && forall|j: int| 0 <= j < ra[i].1.len() ==> ins_same(#[trigger] ra[i].1[j], rb[i].1[j]) by {
            if i < p {
                assert(a[i].0 == b[i].0);
                assert forall|j: int| 0 <= j < ra[i].1.len() implies ins_same(#[trigger] ra[i].1[j], rb[i].1[j]) by {
                    assert(ins_same(a[i].1[j], b[i].1[j]));
                }
            } else if i > p {
                assert(a[i - 1].0 == b[i - 1].0);
                assert forall|j: int| 0 <= j < ra[i].1.len() implies ins_same(#[trigger] ra[i].1[j], rb[i].1[j]) by {
                    assert(ins_same(a[i - 1].1[j], b[i - 1].1[j]));
                }
            }
        }
    }
}

/// Adding the same notes to the same schedules keeps them the same.
proof fn lemma_notes_same(
    a: Seq<(u64, Seq<Instruction>)>,
    b: Seq<(u64, Seq<Instruction>)>,
    clock: u64,
    pcs: Seq<Pc>,
    regs: Seq<Register>,
    vels: Seq<Velocity>,
    lens: Seq<Length>,
    tempos: Seq<Mpb>,
    k: nat,
)
    requires
        sched_same(a, b),
    ensures
        sched_same(notes_added(a, clock, pcs, regs, vels, lens, tempos, k), notes_added(b, clock, pcs, regs, vels, lens, tempos, k)),
    decreases k,
{
    if k > 0 {
        let i = k - 1;
        let pa = notes_added(a, clock, pcs, regs, vels, lens, tempos, (k - 1) as nat);
        let pb = notes_added(b, clock, pcs, regs, vels, lens, tempos, (k - 1) as nat);
        lemma_notes_same(a, b, clock, pcs, regs, vels, lens, tempos, (k - 1) as nat);
        let pc = pcs[i];
        let r = regs[i % (regs.len() as int)];
        let v = vels[i % (vels.len() as int)];
        let key = note_key(pc, r);
        let on = Instruction::Midi(MidiMessage::NoteOn { key, vel: note_vel(pc, v) });
        let bend = Instruction::Midi(MidiMessage::PitchBend { bend: 0x2001 });
        let off = Instruction::Midi(MidiMessage::NoteOn { key, vel: 0 });
        lemma_insert_same(pa, pb, clock, on, on);
        let sa1 = sched_insert(pa, clock, on);
        let sb1 = sched_insert(pb, clock, on);
        lemma_insert_same(sa1, sb1, clock, bend, bend);
        let sa2 = if bends(pc) { sched_insert(sa1, clock, bend) } else { sa1 };
        let sb2 = if bends(pc) { sched_insert(sb1, clock, bend) } else { sb1 };
        let ticks = note_ticks(lens, tempos, i);
        lemma_insert_same(sa2, sb2, (clock + ticks) as u64, off, off);
    }
}

/// The same schedules render to the same events.
proof fn lemma_rendered_same(a: Seq<(u64, Seq<Instruction>)>, b: Seq<(u64, Seq<Instruction>)>, k: nat)
    requires
        sched_same(a, b),
        k <= a.len(),
    ensures
        events_same(rendered(a, k), rendered(b, k)),
    decreases k,
{
    if k > 0 {
        lemma_rendered_same(a, b, (k - 1) as nat);
        assert(a[k - 1].0 == b[k - 1].0);
        if k >= 2 {
            assert(a[k - 2].0 == b[k - 2].0);
        }
        let prev = if k >= 2 { a[k - 2].0 } else { 0u64 };
        let ea = events_at(delta_of(prev, a[k - 1].0), a[k - 1].1);
        let eb = events_at(delta_of(prev, b[k - 1].0), b[k - 1].1);
        let ra = rendered(a, (k - 1) as nat);
        let rb = rendered(b, (k - 1) as nat);
        assert forall|i: int| 0 <= i < (ra + ea).len() implies (#[trigger] (ra + ea)[i]).0 == (rb + eb)[i].0 && ins_same((ra + ea)[i].1, (rb + eb)[i].1) by {
            if i >= ra.len() {
                assert(ins_same(a[k - 1].1[i - ra.len()], b[k - 1].1[i - ra.len()]));
            } else {
                assert(ra[i].0 == rb[i].0);
            }
        }
    }
}

/// Adding an instruction keeps the first instructions at tick 0.
proof fn lemma_insert_keeps_start(s: Seq<(u64, Seq<Instruction>)>, t: u64, ins: Instruction, head: Seq<Instruction>)
    requires
        starts_with(s, head),
    ensures
        starts_with(sched_insert(s, t, ins), head),
{
    lemma_slot_bounds(s.drop_first(), t);
    let p = slot(s, t);
    if t > 0 {
        assert(s[0].0 < t);
        assert(p >= 1);
        assert(sched_insert(s, t, ins)[0] == s[0]);
    } else {
        assert(p == 0);
        assert(s[0].0 == t);
        assert(sched_insert(s, t, ins)[0] == (t, s[0].1.push(ins)));
        assert(s[0].1.push(ins).take(head.len() as int) =~= s[0].1.take(head.len() as int));
    }
}

/// Adding notes keeps the first instructions at tick 0.
proof fn lemma_notes_keep_start(
    s: Seq<(u64, Seq<Instruction>)>,
    clock: u64,
    pcs: Seq<Pc>,
    regs: Seq<Register>,
    vels: Seq<Velocity>,
    lens: Seq<Length>,
    tempos: Seq<Mpb>,
    k: nat,
    head: Seq<Instruction>,
)
    requires
        starts_with(s, head),
    ensures
        starts_with(notes_added(s, clock, pcs, regs, vels, lens, tempos, k), head),
    decreases k,
{
    if k > 0 {
        lemma_notes_keep_start(s, clock, pcs, regs, vels, lens, tempos, (k - 1) as nat, head);
        let s0 = notes_added(s, clock, pcs, regs, vels, lens, tempos, (k - 1) as nat);
        let i = k - 1;
        let pc = pcs[i];
        let key = note_key(pc, regs[i % (regs.len() as int)]);
        let s1 = sched_insert(s0, clock, Instruction::Midi(MidiMessage::NoteOn { key, vel: note_vel(pc, vels[i % (vels.len() as int)]) }));
        lemma_insert_keeps_start(s0, clock, Instruction::Midi(MidiMessage::NoteOn { key, vel: note_vel(pc, vels[i % (vels.len() as int)]) }), head);
        let s2 = if bends(pc) {
            sched_insert(s1, clock, Instruction::Midi(MidiMessage::PitchBend { bend: 0x2001 }))
        } else {
            s1
        };
        if bends(pc) {
            lemma_insert_keeps_start(s1, clock, Instruction::Midi(MidiMessage::PitchBend { bend: 0x2001 }), head);
        }
        lemma_insert_keeps_start(s2, (clock + note_ticks(lens, tempos, i)) as u64, Instruction::Midi(MidiMessage::NoteOn { key, vel: 0 }), head);
    }
}

/// The first program of the root: the last value of its last row, program 0
/// when it has none.
pub open spec fn root_program(state: State) -> u8 {
    let rs = rows_or_empty(state.spec_programs(), Ctx::Root);
    if rs.len() > 0 && rs.last().len() > 0 {
        rs.last().last().0
    } else {
        0
    }
}

/// The chord fits from `clock` with `idx` events counted: its events can be
/// counted, and every note has a key, ticks that can be computed without
/// leaving `u64`, and ends by the last tick.
pub open spec fn chord_fits(
    clock: u64,
    idx: usize,
    pcs: Seq<Pc>,
    regs: Seq<Register>,
    vels: Seq<Velocity>,
    lens: Seq<Length>,
    tempos: Seq<Mpb>,
) -> bool {
    &&& idx + 3 * pcs.len() <= usize::MAX
    &&& note_count(pcs, regs, vels, lens, tempos) > 0 ==> forall|i: int|
        0 <= i < pcs.len() ==> #[trigger] note_ok(clock, pcs, regs, lens, tempos, i) && (note_timing_ok(lens, tempos, i)
            ==> note_fits(lens, tempos, i))
}

impl Scheduler {
    /// Whether `schedule_note` can play the chord from the clock: every note
    /// can be computed and ends by the last tick.
    pub fn notes_ok(&self, pcs: &Vec<Pc>, registers: &Vec<Register>, velocities: &Vec<Velocity>, lengths: &Vec<Length>, tempos: &Vec<Mpb>) -> (r: bool)
        ensures
            r ==> self.spec_event_idx() + 3 * pcs@.len() <= usize::MAX,
            r && note_count(pcs@, registers@, velocities@, lengths@, tempos@) > 0 ==> forall|i: int| 0 <= i < pcs@.len() ==> #[trigger] note_ok(self.spec_clock(), pcs@, registers@, lengths@, tempos@, i),
            chord_fits(self.spec_clock(), self.spec_event_idx(), pcs@, registers@, velocities@, lengths@, tempos@) ==> r,
    {
        if pcs.len() > (usize::MAX - self.event_idx) / 3 {
            return false;
        }
        proof {
            let m = (usize::MAX - self.event_idx) as int;
            assert(3 * pcs@.len() <= m) by (nonlinear_arith)
                requires pcs@.len() <= m / 3, m >= 0;
        }
        if lengths.len() == 0 || tempos.len() == 0 || velocities.len() == 0 || registers.len() == 0 {
            return true;
        }
        let mut i: usize = 0;
        while i < pcs.len()
            invariant
                i <= pcs@.len(),
                lengths@.len() > 0 && tempos@.len() > 0 && velocities@.len() > 0 && registers@.len() > 0,
                forall|j: int| 0 <= j < i ==> #[trigger] note_ok(self.spec_clock(), pcs@, registers@, lengths@, tempos@, j),
            decreases pcs@.len() - i,
        {
            let pc = pcs[i];
            let reg = registers[i % registers.len()];
            match pc {
                Pc::Class(f) => {
                    if f.denom == 0 {
                        proof {
                            if chord_fits(self.spec_clock(), self.spec_event_idx(), pcs@, registers@, velocities@, lengths@, tempos@) {
                                assert(note_ok(self.spec_clock(), pcs@, registers@, lengths@, tempos@, i as int));
                            }
                        }
                        return false;
                    }
                },
                Pc::Nothing => {},
            }
            let oct: i16 = match reg {
                Register::Reg(x) => x as i16 + 1,
                Register::Nothing => 1,
            };
            if oct > 127 {
                proof {
                            if chord_fits(self.spec_clock(), self.spec_event_idx(), pcs@, registers@, velocities@, lengths@, tempos@) {
                                assert(note_ok(self.spec_clock(), pcs@, registers@, lengths@, tempos@, i as int));
                            }
                        }
                        return false;
            }
            let ob: u16 = if oct >= 0 { oct as u16 } else { (oct + 256) as u16 };
            proof {
                assert(oct == octave_above(reg));
                assert(ob == octave_byte(reg));
            }
            let fl = pc_floor_of(&pc);
            if ob * 12 + fl as u16 > 255 {
                proof {
                            if chord_fits(self.spec_clock(), self.spec_event_idx(), pcs@, registers@, velocities@, lengths@, tempos@) {
                                assert(note_ok(self.spec_clock(), pcs@, registers@, lengths@, tempos@, i as int));
                            }
                        }
                        return false;
            }
            let b = i % lengths.len();
            let len = lengths[b];
            let tempo = tempos[b % tempos.len()];
            if len.as_ratio().denom > 0 && tempo.0.denom > 0 && tempo.0.numer > 0 {
                match length_to_ticks(len, tempo) {
                    Some(t) => {
                        if t > u64::MAX - self.clock {
                            proof {
                            if chord_fits(self.spec_clock(), self.spec_event_idx(), pcs@, registers@, velocities@, lengths@, tempos@) {
                                assert(note_ok(self.spec_clock(), pcs@, registers@, lengths@, tempos@, i as int));
                            }
                        }
                        return false;
                        }
                        proof {
                            assert(t == note_ticks(lengths@, tempos@, i as int));
                        }
                    },
                    None => {
                        proof {
                            if chord_fits(self.spec_clock(), self.spec_event_idx(), pcs@, registers@, velocities@, lengths@, tempos@) {
                                assert(note_ok(self.spec_clock(), pcs@, registers@, lengths@, tempos@, i as int));
                            }
                        }
                        return false;
                    },
                }
            } else {
                proof {
                    assert(!note_timing_ok(lengths@, tempos@, i as int));
                }
            }
            proof {
                assert(key_ok(pcs@[i as int], registers@[i as int % (registers@.len() as int)]));
                assert(note_timing_ok(lengths@, tempos@, i as int) ==> self.spec_clock() + note_ticks(lengths@, tempos@, i as int) <= u64::MAX);
                assert(note_ok(self.spec_clock(), pcs@, registers@, lengths@, tempos@, i as int));
            }
            i = i + 1;
        }
        true
    }
}

/// The first events of a rendered schedule are its first instructions, at once.
proof fn lemma_rendered_start(s: Seq<(u64, Seq<Instruction>)>, n: nat, head: Seq<Instruction>)
    requires
        starts_with(s, head),
        1 <= n <= s.len(),
    ensures
        rendered(s, n).len() >= head.len(),
        forall|i: int| 0 <= i < head.len() ==> rendered(s, n)[i] == (0u32, #[trigger] head[i]),
    decreases n,
{
    if n == 1 {
        assert(rendered(s, 0) =~= Seq::<(u32, Instruction)>::empty());
        assert(delta_of(0, 0) == 0);
        assert(rendered(s, 1) =~= events_at(0, s[0].1));
        assert forall|i: int| 0 <= i < head.len() implies rendered(s, n)[i] == (0u32, #[trigger] head[i]) by {
            assert(s[0].1.take(head.len() as int)[i] == s[0].1[i]);
        }
    } else {
        lemma_rendered_start(s, (n - 1) as nat, head);
        assert forall|i: int| 0 <= i < head.len() implies rendered(s, n)[i] == (0u32, #[trigger] head[i]) by {
            assert(rendered(s, n)[i] == rendered(s, (n - 1) as nat)[i]);
        }
    }
}

impl Scheduler {
    /// The instructions by tick, taken out of the scheduler.
    pub fn into_schedule(self) -> (r: Vec<(Ticks, Vec<Instruction>)>)
        ensures
            r@.map_values(|e: (u64, Vec<Instruction>)| (e.0, e.1@)) == self.spec_schedule(),
    {
        self.schedule
    }
}

/// A copy of the values of a slice.
fn to_vec<T: Copy>(v: &[T]) -> (r: Vec<T>)
    ensures
        r@ == v@,
{
    let mut r: Vec<T> = Vec::new();
    let mut i: usize = 0;
    while i < v.len()
        invariant
            i <= v@.len(),
            r@ == v@.take(i as int),
        decreases v@.len() - i,
    {
        r.push(v[i]);
        proof {
            assert(v@.take(i + 1) =~= v@.take(i as int).push(v@[i as int]));
        }
        i = i + 1;
    }
    proof {
        assert(v@.take(v@.len() as int) =~= v@);
    }
    r
}

/// The bytes of the name "Piano".
fn piano() -> (r: Vec<u8>)
    ensures
        r@ == seq![80u8, 105u8, 97u8, 110u8, 111u8],
{
    let r = vec![80u8, 105u8, 97u8, 110u8, 111u8];
    proof {
        assert(r@ =~= seq![80u8, 105u8, 97u8, 110u8, 111u8]);
    }
    r
}

/// The name scheduled for program `p`: the name bound to it, "Piano" when
/// none is.
pub open spec fn program_name(state: State, p: u8) -> Seq<u8> {
    if state.spec_instruments().contains_key(seq![p as int]) {
        state.spec_instruments()[seq![p as int]]
    } else {
        seq![80u8, 105u8, 97u8, 110u8, 111u8]
    }
}

/// The tempo word of a tempo: its whole microseconds per beat, low 24 bits.
pub open spec fn tempo_word(t: Mpb) -> u32 {
    (t.0.spec_trunc() % 0x100_0000) as u32
}

/// The first tempo of a slice; the default one when it has none.
pub open spec fn slice_tempo(sl: Slice) -> Mpb {
    if sl.spec_tempos().len() > 0 {
        sl.spec_tempos()[0]
    } else {
        Mpb(Fraction { numer: 500_000, denom: 1 })
    }
}

/// The scheduler's tempo after the slices `sls`, from `t`: a slice whose
/// first tempo has another value sets it.
pub open spec fn slices_tempo(t: Mpb, sls: Seq<Slice>) -> Mpb
    decreases sls.len(),
{
    if sls.len() == 0 {
        t
    } else {
        let t0 = slices_tempo(t, sls.drop_last());
        if t0.0.spec_same(slice_tempo(sls.last()).0) {
            t0
        } else {
            slice_tempo(sls.last())
        }
    }
}

/// The slice plays from `clock` at tempo `t`: a new tempo can be written as a
/// MIDI tempo, and every note of its chord has a key and ticks that fit and
/// end by the last tick.
pub open spec fn slice_plays(clock: u64, t: Mpb, sl: Slice) -> bool {
    let pcs = sl.spec_pcs();
    let regs = sl.spec_registers();
    let lens = sl.spec_lengths();
    let vels = sl.spec_velocities();
    let temps = sl.spec_tempos();
    &&& !t.0.spec_same(slice_tempo(sl).0) ==> slice_tempo(sl).0.wf() && slice_tempo(sl).0.spec_trunc() <= u32::MAX
    &&& note_count(pcs, regs, vels, lens, temps) > 0 ==> forall|i: int|
        0 <= i < pcs.len() ==> #[trigger] note_ok(clock, pcs, regs, lens, temps, i) && note_timing_ok(lens, temps, i)
            && note_fits(lens, temps, i)
}

/// Every slice of `sls` plays from `clock`, each at the tempo the ones before
/// it leave.
pub open spec fn slices_play(clock: u64, t: Mpb, sls: Seq<Slice>) -> bool {
    forall|j: int| 0 <= j < sls.len() ==> #[trigger] slice_plays(clock, slices_tempo(t, sls.take(j)), sls[j])
}

/// At most how many events the slices `sls` add: a program change and its
/// name, a tempo, and three events a note.
pub open spec fn slices_events(sls: Seq<Slice>) -> nat
    decreases sls.len(),
{
    if sls.len() == 0 {
        0
    } else {
        slices_events(sls.drop_last()) + 3 + 3 * sls.last().spec_pcs().len()
    }
}

/// At most how many events the first `k` times of the timeline add.
pub open spec fn timeline_events(tl: Seq<(Length, Seq<Slice>)>, k: int) -> nat
    decreases k,
{
    if k <= 0 {
        0
    } else {
        timeline_events(tl, k - 1) + slices_events(tl[k - 1].1)
    }
}

/// The time before the `k`-th of the timeline: the one before it, zero for
/// the first.
pub open spec fn time_before(tl: Seq<(Length, Seq<Slice>)>, k: int) -> Length {
    if k > 0 {
        tl[k - 1].0
    } else {
        Length::MicroSeconds(Fraction { numer: 0, denom: 1 })
    }
}

/// The clock, the tempo and the last step in ticks after scheduling the
/// first `k` times of the timeline from tick 0 at tempo `t0`; nothing when a
/// step would not fit: each time is reached from the one before in whole
/// ticks at the current tempo, computed without leaving `u64` (unreduced),
/// and then its slices play.
pub open spec fn timeline_run(tl: Seq<(Length, Seq<Slice>)>, k: int, t0: Mpb) -> Option<(int, Mpb, int)>
    decreases k,
{
    if k <= 0 {
        Some((0, t0, 0))
    } else {
        match timeline_run(tl, k - 1, t0) {
            None => None,
            Some((clock, t, _)) => {
                let a = tl[k - 1].0.spec_ratio();
                let b = time_before(tl, k - 1).spec_ratio();
                let dn = a.numer * b.denom - b.numer * a.denom;
                let dd = a.denom * b.denom;
                if b.spec_le(a) && a.numer * b.denom <= u64::MAX && dd <= u64::MAX && t.0.numer > 0 && t.0.denom > 0
                    && dn * t.0.denom * PPQ <= u64::MAX && dd * t.0.numer <= u64::MAX {
                    let delta = (dn * t.0.denom * PPQ) / (dd * t.0.numer);
                    if clock + delta <= u64::MAX && slices_play((clock + delta) as u64, t, tl[k - 1].1) {
                        Some((clock + delta, slices_tempo(t, tl[k - 1].1), delta))
                    } else {
                        None
                    }
                } else {
                    None
                }
            },
        }
    }
}

/// Scheduling `state` succeeds: its tempo can be written as a MIDI tempo,
/// the events can be counted, every step of the timeline fits, and the end of
/// the track, one step after the last time, is within the last tick.
pub open spec fn schedule_fits(state: State) -> bool {
    let tl = state.spec_timeline();
    &&& state.spec_tempo().0.wf()
    &&& state.spec_tempo().0.spec_trunc() <= u32::MAX
    &&& 4 + timeline_events(tl, tl.len() as int) <= usize::MAX
    &&& timeline_run(tl, tl.len() as int, Mpb(Fraction { numer: 500_000, denom: 1 })) matches Some((clock, _, delta))
        && clock + delta <= u64::MAX
}

/// Once a prefix of the timeline does not fit, the whole does not.
proof fn lemma_run_none_after(tl: Seq<(Length, Seq<Slice>)>, k: int, n: int, t0: Mpb)
    requires
        0 <= k <= n,
        timeline_run(tl, k, t0) is None,
    ensures
        timeline_run(tl, n, t0) is None,
    decreases n - k,
{
    if k < n {
        lemma_run_none_after(tl, k + 1, n, t0);
    }
}

/// The events of a prefix of the timeline are at most those of all of it.
proof fn lemma_events_prefix(tl: Seq<(Length, Seq<Slice>)>, k: int, n: int)
    requires
        0 <= k <= n,
    ensures
        timeline_events(tl, k) <= timeline_events(tl, n),
    decreases n - k,
{
    if k < n {
        lemma_events_prefix(tl, k + 1, n);
    }
}

/// The events of a prefix of the slices are at most those of all of them.
proof fn lemma_slices_events_prefix(sls: Seq<Slice>, j: int)
    requires
        0 <= j <= sls.len(),
    ensures
        slices_events(sls.take(j)) + slices_events_from(sls, j) == slices_events(sls),
    decreases sls.len() - j,
{
    if j == sls.len() {
        assert(sls.take(j) =~= sls);
    } else {
        lemma_slices_events_prefix(sls, j + 1);
        assert(sls.take(j + 1).drop_last() =~= sls.take(j));
    }
}

/// The events of the slices from the `j`-th on.
pub open spec fn slices_events_from(sls: Seq<Slice>, j: int) -> nat
    decreases sls.len() - j,
{
    if j < 0 || j >= sls.len() {
        0
    } else {
        3 + 3 * sls[j].spec_pcs().len() + slices_events_from(sls, j + 1)
    }
}

/// Whole division gives the same for the same fraction.
proof fn lemma_div_same(x1: int, y1: int, x2: int, y2: int)
    requires
        y1 > 0,
        y2 > 0,
        x1 >= 0,
        x2 >= 0,
        x1 * y2 == x2 * y1,
    ensures
        x1 / y1 == x2 / y2,
{
    let q = x1 / y1;
    let r = x1 % y1;
    vstd::arithmetic::div_mod::lemma_fundamental_div_mod(x1, y1);
    vstd::arithmetic::div_mod::lemma_mod_pos_bound(x1, y1);
    assert(x1 == q * y1 + r && 0 <= r < y1) by (nonlinear_arith)
        requires x1 == y1 * q + r, 0 <= r < y1;
    assert((x2 - q * y2) * y1 == r * y2) by (nonlinear_arith)
        requires x1 * y2 == x2 * y1, x1 == q * y1 + r;
    assert(0 <= x2 - q * y2 < y2) by (nonlinear_arith)
        requires (x2 - q * y2) * y1 == r * y2, 0 <= r < y1, y1 > 0, y2 > 0;
    assert(x2 == q * y2 + (x2 - q * y2));
    vstd::arithmetic::div_mod::lemma_fundamental_div_mod_converse(x2, y2, q, x2 - q * y2);
}

/// The ticks of a reduced difference are those of the unreduced one, and its
/// numbers are no larger.
proof fn lemma_ticks_of_difference(diff: Fraction, a: Fraction, b: Fraction, t: Fraction)
    requires
        diff.wf(),
        a.wf(),
        b.wf(),
        diff.is_difference_of(a, b),
        diff.denom <= a.denom * b.denom,
        b.spec_le(a),
        t.numer > 0,
        t.denom > 0,
    ensures
        diff.numer * t.denom * PPQ <= (a.numer * b.denom - b.numer * a.denom) * t.denom * PPQ,
        diff.denom * t.numer <= a.denom * b.denom * t.numer,
        (diff.numer * t.denom * PPQ) / (diff.denom * t.numer) == ((a.numer * b.denom - b.numer * a.denom) * t.denom * PPQ) / (
        a.denom * b.denom * t.numer),
{
    let dn = a.numer * b.denom - b.numer * a.denom;
    let dd = a.denom * b.denom;
    let p = PPQ as int;
    assert(dd > 0) by (nonlinear_arith)
        requires a.denom > 0, b.denom > 0, dd == a.denom * b.denom;
    assert(dn >= 0) by (nonlinear_arith)
        requires b.numer * a.denom <= a.numer * b.denom, dn == a.numer * b.denom - b.numer * a.denom;
    assert(diff.numer * dd == dn * diff.denom);
    assert(diff.numer <= dn) by (nonlinear_arith)
        requires diff.numer * dd == dn * diff.denom, 0 < diff.denom <= dd, dn >= 0, diff.numer >= 0;
    assert(diff.numer * t.denom * p <= dn * t.denom * p) by (nonlinear_arith)
        requires diff.numer <= dn, t.denom > 0, p > 0, diff.numer >= 0;
    assert(diff.denom * t.numer <= dd * t.numer) by (nonlinear_arith)
        requires diff.denom <= dd, t.numer > 0;
    assert((diff.numer * t.denom * p) * (dd * t.numer) == (dn * t.denom * p) * (diff.denom * t.numer)) by (nonlinear_arith)
        requires diff.numer * dd == dn * diff.denom;
    assert(diff.denom * t.numer > 0) by (nonlinear_arith)
        requires diff.denom > 0, t.numer > 0;
    assert(dd * t.numer > 0) by (nonlinear_arith)
        requires dd > 0, t.numer > 0;
    assert(diff.numer * t.denom * p >= 0) by (nonlinear_arith)
        requires diff.numer >= 0, t.denom > 0, p > 0;
    assert(dn * t.denom * p >= 0) by (nonlinear_arith)
        requires dn >= 0, t.denom > 0, p > 0;
    lemma_div_same(diff.numer * t.denom * p, diff.denom * t.numer, dn * t.denom * p, dd * t.numer);
}

/// Where a run of the scheduler stands: the schedule so far, the clock, the
/// tempo and program it last set, and the last step of the clock.
pub struct SchedRun {
    pub sched: Seq<(u64, Seq<Instruction>)>,
    pub clock: u64,
    pub tempo: Mpb,
    pub prog: u8,
    pub delta: u64,
}

/// Some list of bytes holding `bytes`.
pub open spec fn name_vec(bytes: Seq<u8>) -> Vec<u8> {
    choose|v: Vec<u8>| v@ == bytes
}

/// The program a slice plays: its first, program 0 when it has none.
pub open spec fn slice_prog(sl: Slice) -> u8 {
    if sl.spec_programs().len() > 0 {
        sl.spec_programs()[0].0
    } else {
        0
    }
}

/// The ticks from time `b` to time `a` at tempo `t`, rounded down.
pub open spec fn tick_step(a: Length, b: Length, t: Mpb) -> int {
    let x = a.spec_ratio();
    let y = b.spec_ratio();
    ((x.numer * y.denom - y.numer * x.denom) * t.0.denom * PPQ) / (x.denom * y.denom * t.0.numer)
}

/// The run after one slice: its program when it changes (with the
/// instrument's name at tick 0 when the state names it), its tempo when it
/// changes, and its notes, all at the clock.
pub open spec fn run_slice(st: SchedRun, sl: Slice, state: State) -> SchedRun {
    let p = slice_prog(sl);
    let s1 = program_set(st.sched, st.clock, st.prog, p, state);
    let tm = slice_tempo(sl);
    let s2 = tempo_set(s1, st.clock, st.tempo, tm);
    SchedRun {
        sched: notes_added(
            s2,
            st.clock,
            sl.spec_pcs(),
            sl.spec_registers(),
            sl.spec_velocities(),
            sl.spec_lengths(),
            sl.spec_tempos(),
            slice_notes(sl),
        ),
        clock: st.clock,
        tempo: if st.tempo.0.spec_same(tm.0) { st.tempo } else { tm },
        prog: p,
        delta: st.delta,
    }
}

/// The schedule `s` after setting program `p` at `clock` when `prog` was set:
/// a program change, and the instrument's name at tick 0 when the state
/// names it; nothing when `p` was set already.
pub open spec fn program_set(s: Seq<(u64, Seq<Instruction>)>, clock: u64, prog: u8, p: u8, state: State) -> Seq<(u64, Seq<Instruction>)> {
    if prog == p {
        s
    } else {
        let mid = sched_insert(s, clock, Instruction::Midi(MidiMessage::ProgramChange { program: (p % 128) as u8 }));
        if state.spec_instruments().contains_key(seq![p as int]) {
            sched_insert(mid, 0, Instruction::Meta(MetaMessage::InstrumentName(name_vec(state.spec_instruments()[seq![p as int]]))))
        } else {
            mid
        }
    }
}

/// The schedule `s` after setting tempo `tm` at `clock` when `t` was set: a
/// tempo event unless both stand for the same number.
pub open spec fn tempo_set(s: Seq<(u64, Seq<Instruction>)>, clock: u64, t: Mpb, tm: Mpb) -> Seq<(u64, Seq<Instruction>)> {
    if t.0.spec_same(tm.0) {
        s
    } else {
        sched_insert(s, clock, Instruction::Meta(MetaMessage::Tempo((tm.0.spec_trunc() % 0x100_0000) as u32)))
    }
}

/// The run after the slices `sls`, first to last.
pub open spec fn run_slices(st: SchedRun, sls: Seq<Slice>, state: State) -> SchedRun
    decreases sls.len(),
{
    if sls.len() == 0 {
        st
    } else {
        run_slice(run_slices(st, sls.drop_last(), state), sls.last(), state)
    }
}

/// The run before the timeline: the program of the root, its name and the
/// tempo of the state at tick 0, the clock at 0, 120 beats per minute and
/// program 0 set.
pub open spec fn run_start(state: State) -> SchedRun {
    SchedRun {
        sched: seq![
            (
                0u64,
                seq![
                    Instruction::Midi(MidiMessage::ProgramChange { program: (root_program(state) % 128) as u8 }),
                    Instruction::Meta(MetaMessage::InstrumentName(name_vec(program_name(state, root_program(state))))),
                    Instruction::Meta(MetaMessage::Tempo(tempo_word(state.spec_tempo()))),
                ],
            ),
        ],
        clock: 0,
        tempo: Mpb(Fraction { numer: 500_000, denom: 1 }),
        prog: 0,
        delta: 0,
    }
}

/// The run after the first `k` times of the timeline: the clock moves by the
/// ticks since the time before, then the slices of the time play.
pub open spec fn run_times(tl: Seq<(Length, Seq<Slice>)>, k: int, state: State) -> SchedRun
    decreases k,
{
    if k <= 0 {
        run_start(state)
    } else {
        let st = run_times(tl, k - 1, state);
        let d = tick_step(tl[k - 1].0, time_before(tl, k - 1), st.tempo);
        run_slices(SchedRun { clock: (st.clock + d) as u64, delta: d as u64, ..st }, tl[k - 1].1, state)
    }
}

/// The schedule of the whole timeline of `state`: the run over every time,
/// then the end of the track one last step after the last time.
pub open spec fn scheduled(state: State) -> Seq<(u64, Seq<Instruction>)> {
    let tl = state.spec_timeline();
    let st = run_times(tl, tl.len() as int, state);
    sched_insert(st.sched, (st.clock + st.delta) as u64, Instruction::Meta(MetaMessage::EndOfTrack))
}

/// Schedules the timeline of `state` as one MIDI track: the program of the
/// root and its name ("Piano" when it has none) and the tempo at tick 0,
/// then each time of the timeline after the ticks since the previous one,
/// each slice with its program, tempo and chord, and the end of the track.
/// `None` when a value does not fit where MIDI or the clock needs it.
pub fn schedule(state: &State) -> (r: Option<Vec<Vec<TrackEvent>>>)
    requires
        state.wf(),
    ensures
        r matches Some(tracks) ==> {
            &&& tracks@.len() == 1
            &&& tracks@[0]@.len() >= 3
            &&& tracks@[0]@[0].delta == 0
            &&& tracks@[0]@[0].instruction == Instruction::Midi(MidiMessage::ProgramChange { program: root_program(*state) % 128 })
            &&& tracks@[0]@[1].delta == 0
            &&& tracks@[0]@[1].instruction matches Instruction::Meta(MetaMessage::InstrumentName(n))
            &&& n@ == program_name(*state, root_program(*state))
            &&& tracks@[0]@[2].delta == 0
            &&& tracks@[0]@[2].instruction == Instruction::Meta(MetaMessage::Tempo(tempo_word(state.spec_tempo())))
            &&& tracks@[0]@.len() >= 4 + 2 * timeline_notes(state.spec_timeline(), state.spec_timeline().len() as int)
            &&& state.spec_timeline().len() == 0 ==> tracks@[0]@.len() == 4 && tracks@[0]@[3].delta == 0
                && tracks@[0]@[3].instruction == Instruction::Meta(MetaMessage::EndOfTrack)
            &&& events_same(
                tracks@[0]@.map_values(|e: TrackEvent| (e.delta, e.instruction)),
                rendered(scheduled(*state), scheduled(*state).len()),
            )
        },
        schedule_fits(*state) ==> r is Some,
{
    let ghost fits = schedule_fits(*state);
    let ghost t0 = Mpb(Fraction { numer: 500_000, denom: 1 });
    let mut sch = Scheduler::default();
    let prog: Prog = match state.programs(Ctx::Root) {
        Some(rs) => {
            proof {
                assert(rows(rs).len() == rs@.len());
            }
            if rs.len() > 0 && rs[rs.len() - 1].len() > 0 {
                proof {
                    assert(rows(rs).last() == rs@.last()@);
                }
                let last = &rs[rs.len() - 1];
                last[last.len() - 1]
            } else {
                proof {
                    if rs@.len() > 0 {
                        assert(rows(rs).last() == rs@.last()@);
                    }
                }
                Prog(0)
            }
        },
        None => Prog(0),
    };
    proof {
        assert(prog.0 == root_program(*state));
    }
    let ghost first = Instruction::Midi(MidiMessage::ProgramChange { program: (prog.0 % 128) as u8 });
    sch.add_instruction(0, Instruction::Midi(MidiMessage::ProgramChange { program: prog.0 % 128 }));
    proof {
        assert(sch.spec_schedule() =~= seq![(0u64, seq![first])]);
    }
    let name = match state.instruments().get(&prog) {
        Some(bytes) => copy_bytes(bytes),
        None => piano(),
    };
    let ghost second = Instruction::Meta(MetaMessage::InstrumentName(name));
    proof {
        assert(name@ == program_name(*state, root_program(*state)));
        assert(sch.spec_schedule()[0].0 == 0);
        assert(slot(sch.spec_schedule(), 0) == 0);
        assert(sch.spec_schedule()[0].1.push(second) =~= seq![first, second]);
    }
    sch.add_instruction(0, Instruction::Meta(MetaMessage::InstrumentName(name)));
    proof {
        assert(sch.spec_schedule() =~~= seq![(0u64, seq![first, second])]);
    }
    let tempo = state.tempo();
    if tempo.0.denom == 0 {
        return None;
    }
    let t = tempo.0.to_integer();
    if t > u32::MAX as u64 {
        return None;
    }
    let tv: u32 = (t % 0x100_0000) as u32;
    let ghost third = Instruction::Meta(MetaMessage::Tempo(tv));
    proof {
        assert(tv == tempo_word(state.spec_tempo()));
        assert(slot(sch.spec_schedule(), 0) == 0);
        assert(sch.spec_schedule()[0].1.push(third) =~= seq![first, second, third]);
    }
    sch.add_instruction(0, Instruction::Meta(MetaMessage::Tempo(tv)));
    let ghost head = seq![first, second, third];
    proof {
        assert(sch.spec_schedule() =~~= seq![(0u64, seq![first, second, third])]);
        assert(seq![first, second, third].take(3) =~= head);
        let s3 = sch.spec_schedule();
        assert(s3.drop_last() =~= Seq::<(u64, Seq<Instruction>)>::empty());
        assert(sched_size(s3.drop_last()) == 0);
        assert(sched_size(s3) == 3);
    }
    let ghost s_head = sch.spec_schedule();
    proof {
        let bytes = program_name(*state, root_program(*state));
        assert(name@ == bytes);
        assert(exists|v: Vec<u8>| v@ == bytes);
        assert(name_vec(bytes)@ == bytes);
        let st0 = run_start(*state);
        assert(sched_same(s_head, st0.sched)) by {
            assert forall|j: int| 0 <= j < s_head[0].1.len() implies ins_same(#[trigger] s_head[0].1[j], st0.sched[0].1[j]) by {
                assert(s_head[0].1 == seq![first, second, third]);
            }
        }
    }
    let timeline = state.timeline();
    let ghost tl = state.spec_timeline();
    proof {
        assert(timeline@.len() == tl.len());
    }
    let mut prev = Length::default();
    let mut delta_time: u64 = 0;
    let mut k: usize = 0;
    while k < timeline.len()
        invariant
            sch.wf(),
            state.wf(),
            starts_with(sch.spec_schedule(), head),
            k <= timeline@.len(),
            tl == state.spec_timeline(),
            timeline@.map_values(|e: (Length, Vec<Slice>)| (e.0, e.1@)) == tl,
            timeline_sorted(tl),
            prev.wf(),
            sch.spec_event_idx() <= usize::MAX,
            fits == schedule_fits(*state),
            t0 == Mpb(Fraction { numer: 500_000, denom: 1 }),
            prev == time_before(tl, k as int),
            fits ==> timeline_run(tl, k as int, t0) == Some((sch.spec_clock() as int, sch.spec_tempo(), delta_time as int)),
            fits ==> sch.spec_event_idx() <= 3 + timeline_events(tl, k as int),
            sched_size(sch.spec_schedule()) >= 3 + 2 * timeline_notes(tl, k as int),
            k == 0 ==> sch.spec_clock() == 0 && delta_time == 0 && sch.spec_schedule() == s_head,
            sched_same(sch.spec_schedule(), run_times(tl, k as int, *state).sched),
            sch.spec_clock() == run_times(tl, k as int, *state).clock,
            sch.spec_tempo() == run_times(tl, k as int, *state).tempo,
            sch.spec_prog() == run_times(tl, k as int, *state).prog,
            delta_time == run_times(tl, k as int, *state).delta,
            s_head =~~= seq![(0u64, head)],
        decreases timeline@.len() - k,
    {
        proof {
            if fits {
                if timeline_run(tl, k + 1, t0) is None {
                    lemma_run_none_after(tl, k + 1, tl.len() as int, t0);
                }
                lemma_events_prefix(tl, k + 1, tl.len() as int);
            }
        }
        let ghost clock0 = sch.spec_clock() as int;
        let ghost tk = sch.spec_tempo();
        let entry = &timeline[k];
        proof {
            assert(tl[k as int].0 == entry.0);
            assert(tl[k as int].0 is MicroSeconds && tl[k as int].0.spec_ratio().wf());
        }
        let time = entry.0;
        let ghost a = time.spec_ratio();
        let ghost b = prev.spec_ratio();
        proof {
            assert(prev == time_before(tl, k as int));
            assert(time == tl[k as int].0);
            if k > 0 {
                assert(tl[k - 1].0.spec_ratio().spec_lt(tl[k as int].0.spec_ratio()));
                assert(prev == tl[k - 1].0);
            } else {
                assert(prev.spec_ratio() == Fraction { numer: 0, denom: 1 });
                let tn = time.spec_ratio().numer;
                let td = time.spec_ratio().denom;
                assert(0 * td <= tn * 1) by (nonlinear_arith);
            }
            assert(prev.spec_ratio().spec_le(time.spec_ratio()));
        }
        let diff = match time.checked_sub(&prev) {
            Some(d) => d,
            None => {
                return None;
            },
        };
        let tempo = sch.tempo();
        if !(tempo.0.denom > 0 && tempo.0.numer > 0) {
            return None;
        }
        proof {
            lemma_ticks_of_difference(diff.spec_ratio(), a, b, tempo.0);
        }
        delta_time = match length_to_ticks(diff, tempo) {
            Some(d) => d,
            None => {
                return None;
            },
        };
        if delta_time > u64::MAX - sch.ticks() {
            return None;
        }
        let ghost run_k = run_times(tl, k as int, *state);
        proof {
            assert(delta_time == tick_step(tl[k as int].0, time_before(tl, k as int), run_k.tempo));
        }
        sch.forward(delta_time);
        let slices = &entry.1;
        let ghost sls = slices@;
        let ghost stk = SchedRun { clock: sch.spec_clock(), delta: delta_time, ..run_k };
        proof {
            assert(sls == tl[k as int].1);
            assert(sls.take(0) =~= Seq::<Slice>::empty());
            assert(run_slices(stk, sls.take(0), *state) == stk);
            assert(run_times(tl, k + 1, *state) == run_slices(stk, tl[k as int].1, *state));
        }
        let mut j: usize = 0;
        while j < slices.len()
            invariant
                sch.wf(),
                state.wf(),
                starts_with(sch.spec_schedule(), head),
                j <= slices@.len(),
                sls == slices@,
                fits == schedule_fits(*state),
                fits ==> sch.spec_clock() as int == clock0 + delta_time,
                fits ==> sch.spec_tempo() == slices_tempo(tk, sls.take(j as int)),
                fits ==> slices_play(sch.spec_clock(), tk, sls),
                fits ==> sch.spec_event_idx() <= 3 + timeline_events(tl, k as int) + slices_events(sls.take(j as int)),
                fits ==> 3 + timeline_events(tl, k as int) + slices_events(sls) + 1 <= usize::MAX,
                sched_size(sch.spec_schedule()) >= 3 + 2 * (timeline_notes(tl, k as int) + slices_notes(sls.take(j as int))),
                k < tl.len(),
                sched_same(sch.spec_schedule(), run_slices(stk, sls.take(j as int), *state).sched),
                sch.spec_clock() == run_slices(stk, sls.take(j as int), *state).clock,
                sch.spec_tempo() == run_slices(stk, sls.take(j as int), *state).tempo,
                sch.spec_prog() == run_slices(stk, sls.take(j as int), *state).prog,
                delta_time == run_slices(stk, sls.take(j as int), *state).delta,
                run_times(tl, k + 1, *state) == run_slices(stk, sls, *state),
            decreases slices@.len() - j,
        {
            proof {
                if fits {
                    lemma_slices_events_prefix(sls, j as int);
                    lemma_slices_events_prefix(sls, j as int + 1);
                    assert(sls.take(j + 1).drop_last() =~= sls.take(j as int));
                    assert(sls.take(j + 1).last() == sls[j as int]);
                    assert(slice_plays(sch.spec_clock(), slices_tempo(tk, sls.take(j as int)), sls[j as int]));
                }
            }
            let (pcs, regs, lens, vels, temps, progs) = slices[j].data();
            let p = if progs.len() > 0 { progs[0] } else { Prog(0) };
            if sch.event_index() > usize::MAX - 2 {
                return None;
            }
            let ghost s0 = sch.spec_schedule();
            let ghost prev_run = run_slices(stk, sls.take(j as int), *state);
            let ghost sl = sls[j as int];
            proof {
                assert(p.0 == slice_prog(sl));
            }
            sch.set_program(p, state);
            proof {
                if prev_run.prog != p.0 {
                    let pc = Instruction::Midi(MidiMessage::ProgramChange { program: (p.0 % 128) as u8 });
                    lemma_insert_same(s0, prev_run.sched, prev_run.clock, pc, pc);
                    let mid = sched_insert(s0, prev_run.clock, pc);
                    let mid_s = sched_insert(prev_run.sched, prev_run.clock, pc);
                    if state.spec_instruments().contains_key(seq![p.0 as int]) {
                        let bytes = state.spec_instruments()[seq![p.0 as int]];
                        let name = choose|name: Vec<u8>| name@ == bytes && sch.spec_schedule() == #[trigger] sched_insert(mid, 0, Instruction::Meta(MetaMessage::InstrumentName(name)));
                        assert(exists|v: Vec<u8>| v@ == bytes);
                        assert(name_vec(bytes)@ == bytes);
                        lemma_insert_same(mid, mid_s, 0, Instruction::Meta(MetaMessage::InstrumentName(name)), Instruction::Meta(MetaMessage::InstrumentName(name_vec(bytes))));
                    }
                }
                assert(sched_same(sch.spec_schedule(), program_set(prev_run.sched, prev_run.clock, prev_run.prog, p.0, *state)));
            }
            proof {
                if s0 != sch.spec_schedule() {
                    let mid = sched_insert(s0, sch.spec_clock(), Instruction::Midi(MidiMessage::ProgramChange { program: (p.0 % 128) as u8 }));
                    lemma_insert_size(s0, sch.spec_clock(), Instruction::Midi(MidiMessage::ProgramChange { program: (p.0 % 128) as u8 }));
                    lemma_insert_keeps_start(s0, sch.spec_clock(), Instruction::Midi(MidiMessage::ProgramChange { program: (p.0 % 128) as u8 }), head);
                    if state.spec_instruments().contains_key(seq![p.0 as int]) {
                        let name = choose|name: Vec<u8>| name@ == state.spec_instruments()[seq![p.0 as int]] && sch.spec_schedule() == #[trigger] sched_insert(mid, 0, Instruction::Meta(MetaMessage::InstrumentName(name)));
                        lemma_insert_keeps_start(mid, 0, Instruction::Meta(MetaMessage::InstrumentName(name)), head);
                        lemma_insert_size(mid, 0, Instruction::Meta(MetaMessage::InstrumentName(name)));
                    }
                }
            }
            let tm = if temps.len() > 0 { temps[0] } else { Mpb::default() };
            if !sch.tempo().same(&tm) {
                if tm.0.denom == 0 || tm.0.to_integer() > u32::MAX as u64 || sch.event_index() == usize::MAX {
                    return None;
                }
            }
            let ghost s1 = sch.spec_schedule();
            let ghost s1s = program_set(prev_run.sched, prev_run.clock, prev_run.prog, p.0, *state);
            proof {
                assert(tm == slice_tempo(sl));
            }
            sch.set_tempo(tm);
            proof {
                if !prev_run.tempo.0.spec_same(tm.0) {
                    let ti = Instruction::Meta(MetaMessage::Tempo((tm.0.spec_trunc() % 0x100_0000) as u32));
                    lemma_insert_same(s1, s1s, prev_run.clock, ti, ti);
                }
                assert(sched_same(sch.spec_schedule(), tempo_set(s1s, prev_run.clock, prev_run.tempo, tm)));
            }
            proof {
                if s1 != sch.spec_schedule() {
                    lemma_insert_keeps_start(s1, sch.spec_clock(), Instruction::Meta(MetaMessage::Tempo((tm.0.spec_trunc() % 0x100_0000) as u32)), head);
                    lemma_insert_size(s1, sch.spec_clock(), Instruction::Meta(MetaMessage::Tempo((tm.0.spec_trunc() % 0x100_0000) as u32)));
                }
            }
            let pcs_v = to_vec(pcs);
            let regs_v = to_vec(regs);
            let vels_v = to_vec(vels);
            let lens_v = to_vec(lens);
            let temps_v = to_vec(temps);
            if !sch.notes_ok(&pcs_v, &regs_v, &vels_v, &lens_v, &temps_v) {
                return None;
            }
            let ghost s2 = sch.spec_schedule();
            let ghost c2 = sch.spec_clock();
            proof {
                if fits {
                    assert forall|i: int| 0 <= i < note_count(pcs@, regs@, vels@, lens@, temps@) implies note_timing_ok(lens@, temps@, i)
                        && note_fits(lens@, temps@, i) by {
                        assert(note_ok(c2, pcs@, regs@, lens@, temps@, i));
                    }
                }
            }
            if !sch.schedule_note(pcs_v, regs_v, vels_v, lens_v, temps_v) {
                return None;
            }
            proof {
                let s2s = tempo_set(s1s, prev_run.clock, prev_run.tempo, tm);
                assert(pcs@ == sl.spec_pcs() && regs@ == sl.spec_registers() && vels@ == sl.spec_velocities() && lens@ == sl.spec_lengths()
                    && temps@ == sl.spec_tempos());
                lemma_notes_same(s2, s2s, c2, pcs@, regs@, vels@, lens@, temps@, note_count(pcs@, regs@, vels@, lens@, temps@));
                assert(run_slices(stk, sls.take(j + 1), *state) == run_slice(prev_run, sl, *state)) by {
                    assert(sls.take(j + 1).drop_last() =~= sls.take(j as int));
                }
                lemma_notes_keep_start(s2, c2, pcs@, regs@, vels@, lens@, temps@, note_count(pcs@, regs@, vels@, lens@, temps@), head);
                lemma_notes_size(s2, c2, pcs@, regs@, vels@, lens@, temps@, note_count(pcs@, regs@, vels@, lens@, temps@));
                assert(sls.take(j + 1).drop_last() =~= sls.take(j as int));
                assert(sls.take(j + 1).last() == sls[j as int]);
                assert(slice_notes(sls[j as int]) == note_count(pcs@, regs@, vels@, lens@, temps@));
            }
            j = j + 1;
        }
        proof {
            assert(sls.take(sls.len() as int) =~= sls);
            assert(timeline_notes(tl, k + 1) == timeline_notes(tl, k as int) + slices_notes(tl[k as int].1));
            if fits {
                assert(time_before(tl, k as int + 1) == time);
            }
        }
        prev = time;
        k = k + 1;
    }
    if delta_time > u64::MAX - sch.ticks() {
        return None;
    }
    sch.forward(delta_time);
    if sch.event_index() == usize::MAX {
        return None;
    }
    let end = sch.ticks();
    proof { lemma_insert_keeps_start(sch.spec_schedule(), end, Instruction::Meta(MetaMessage::EndOfTrack), head); }
    proof {
        let st = run_times(tl, tl.len() as int, *state);
        lemma_insert_same(sch.spec_schedule(), st.sched, end, Instruction::Meta(MetaMessage::EndOfTrack), Instruction::Meta(MetaMessage::EndOfTrack));
        lemma_insert_size(sch.spec_schedule(), end, Instruction::Meta(MetaMessage::EndOfTrack));
        if tl.len() == 0 {
            assert(end == 0);
            assert(slot(s_head, 0) == 0);
        }
    }
    sch.add_instruction(end, Instruction::Meta(MetaMessage::EndOfTrack));
    let ghost sv = sch.spec_schedule();
    let events = sch.into_schedule();
    let tracks = render_tracks(events);
    proof {
        lemma_rendered_start(sv, sv.len(), head);
        lemma_rendered_len(sv, sv.len());
        assert(sv.take(sv.len() as int) =~= sv);
        assert(sched_same(sv, scheduled(*state)));
        lemma_rendered_same(sv, scheduled(*state), sv.len());
        if tl.len() == 0 {
            let eot = Instruction::Meta(MetaMessage::EndOfTrack);
            assert(sv =~~= seq![(0u64, head.push(eot))]);
            assert(rendered(sv, 0) =~= Seq::<(u32, Instruction)>::empty());
            assert(delta_of(0u64, 0u64) == 0u32);
            assert(rendered(sv, 1) =~= events_at(0u32, head.push(eot)));
            assert(tracks@[0]@.map_values(|e: TrackEvent| (e.delta, e.instruction))[3] == (tracks@[0]@[3].delta, tracks@[0]@[3].instruction));
        }
        let e0 = tracks@[0]@[0];
        assert(tracks@[0]@.len() == rendered(sv, sv.len()).len());
        assert(tracks@[0]@.map_values(|e: TrackEvent| (e.delta, e.instruction))[0] == (e0.delta, e0.instruction));
    }
    Some(tracks)
}

/// A copy of the bytes.
fn copy_bytes(v: &Vec<u8>) -> (r: Vec<u8>)
    ensures
        r@ == v@,
{
    let mut r: Vec<u8> = Vec::new();
    let mut i: usize = 0;
    while i < v.len()
        invariant
            i <= v@.len(),
            r@ == v@.take(i as int),
        decreases v@.len() - i,
    {
        r.push(v[i]);
        proof {
            assert(v@.take(i + 1) =~= v@.take(i as int).push(v@[i as int]));
        }
        i = i + 1;
    }
    proof {
        assert(v@.take(v@.len() as int) =~= v@);
    }
    r
}

} // verus!
