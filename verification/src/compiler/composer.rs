//! Composition: walks the syntax tree left to right and fills the context
//! arena of a `State`, then sequences the result onto its timeline.
//!
//! Every composing function takes the expression at hand and the context it
//! is read in, reads on as far as it needs, and gives back the next
//! expression to compose together with the context, which never changes.
//! Forms of the language that composition does not handle yet, and inputs
//! that a well-formed program never holds, give a `ComposeError` in place of
//! a result.
use crate::compiler::ast::{
    clone_exp, compound_exps, lemma_view_exps_push, lemma_view_exps_take, view_compound, view_exp, view_exps, Absolute, Compound, Decl, Duration, Exp, ExpDecl, ExpV, Fractional,
    Ident, Infix, Prefix, Program, Pure, Rational, Scalar, Simple, SimpleV, Suffix, Tuplet,
};
use crate::compiler::codegen::fraction::{mul_wide, ratio_new, reduced, Fraction};
use crate::compiler::codegen::state::{
    cycled, event_thunks, lemma_view_exps_len, pad_need, param_added, program_of, rank, thunks_applied, timeline_sorted, thunks_emptied, with_thunk, zigzag,
    Column, Param, ParamKind, State, Tables, Thunk,
};
use crate::compiler::codegen::arena::{ctx_key, ident_key, rows_or_empty};
use crate::compiler::codegen::timing::{lemma_tree_shrunk_refl, lemma_tree_shrunk_trans, q_ratio, row_min, row_min_of, tree_shrunk, voices_fit, LenQ};
use crate::compiler::codegen::{
    absolute_pc, dynamic_velocity, low_byte_i8, low_byte_signed, tempo_computable, Ctx, LifeCycleEvent, Length, Mpb, Pc, Prog, Register,
    Scope, Velocity,
};
use vstd::prelude::*;

verus! {

/// Why a program could not be composed.
#[derive(Debug)]
pub enum ComposeError {
    /// A form of the language that composition does not handle.
    Unsupported,
    /// A name with no binding in sight.
    UndefinedSymbol(Ident),
    /// Groups nested deeper than `MAX_DEPTH`, or more than `MAX_STEPS`
    /// expressions composed in one group (a binding that names itself).
    Exhausted,
    /// A value that a parsed program never holds: a zero denominator, a
    /// division by zero, nothing to take a smallest length or tempo from, or
    /// a reading position at its limit.
    Invalid,
    /// A duration too large to be held.
    Overflow,
    /// Laying the contexts on the timeline failed.
    Sequencing,
}

/// How deeply groups may nest.
pub const MAX_DEPTH: usize = 128;

/// How many expressions one group may compose.
pub const MAX_STEPS: usize = 262144;

/// A state that composition can work on in `ctx`: well formed, and `ctx` no
/// newer than the contexts made so far.
pub open spec fn composable(s: State, ctx: Ctx) -> bool {
    s.wf() && rank(ctx) <= s.spec_ctx_count()
}

/// A composing step leaves the state well formed and with no fewer
/// contexts made.
pub open spec fn wf_grown(o: State, n: State) -> bool {
    n.wf() && o.spec_ctx_count() <= n.spec_ctx_count()
}

/// The values of an optional expression.
pub open spec fn opt_view(o: Option<Exp>) -> Option<ExpV> {
    match o {
        Some(e) => Some(e@),
        None => None,
    }
}

/// The state can read: something was pushed back, or the reading position
/// can move on.
pub open spec fn readable(s: State) -> bool {
    s.spec_peeked().len() > 0 || s.spec_index() < usize::MAX
}

/// What the next read gives: the last expression pushed back, else the one
/// at the reading position, if there is one.
pub open spec fn upcoming(s: State) -> Option<ExpV> {
    if s.spec_peeked().len() > 0 {
        Some(s.spec_peeked().last())
    } else if s.spec_index() < s.spec_exps().len() {
        Some(s.spec_exps()[s.spec_index() as int])
    } else {
        None
    }
}

/// What the next read gives, nothing counting as `Noop`.
pub open spec fn upcoming_or_noop(s: State) -> ExpV {
    match upcoming(s) {
        Some(e) => e,
        None => ExpV::Noop,
    }
}

/// The state can read twice in a row.
pub open spec fn readable_twice(s: State) -> bool {
    if s.spec_peeked().len() > 1 {
        true
    } else if s.spec_peeked().len() == 1 {
        s.spec_index() < usize::MAX
    } else {
        s.spec_index() + 1 < usize::MAX
    }
}

/// What the second of two reads gives, `Noop` when there is nothing.
pub open spec fn second_upcoming(s: State) -> ExpV {
    let p = s.spec_peeked();
    let i = s.spec_index();
    if p.len() > 1 {
        p[p.len() - 2]
    } else if p.len() == 1 {
        if i < s.spec_exps().len() { s.spec_exps()[i as int] } else { ExpV::Noop }
    } else if i + 1 < s.spec_exps().len() {
        s.spec_exps()[i as int + 1]
    } else {
        ExpV::Noop
    }
}

/// `n` is `o` after one read: the last pushed-back expression is gone, or
/// else the reading position moved on by one.
pub open spec fn advanced(o: State, n: State) -> bool {
    &&& n.spec_exps() == o.spec_exps()
    &&& n.spec_stack() == o.spec_stack()
    &&& n.spec_stack_indexes() == o.spec_stack_indexes()
    &&& if o.spec_peeked().len() > 0 {
        n.spec_index() == o.spec_index() && n.spec_peeked() == o.spec_peeked().drop_last()
    } else {
        n.spec_index() == o.spec_index() + 1 && n.spec_peeked() == o.spec_peeked()
    }
}

/// `n` is `o` after one read and nothing else.
pub open spec fn stepped(o: State, n: State) -> bool {
    &&& n.wf() == o.wf()
    &&& n.same_tree(&o)
    &&& n.same_params(&o)
    &&& n.same_rest(&o)
    &&& advanced(o, n)
}

/// `n` is `o` unchanged in every part that the specification sees.
pub open spec fn unchanged(o: State, n: State) -> bool {
    &&& n.wf() == o.wf()
    &&& n.same_tree(&o)
    &&& n.same_params(&o)
    &&& n.same_rest(&o)
    &&& n.same_reader(&o)
}

/// Everything but the deferred actions, the bindings and the instruments is
/// unchanged.
pub open spec fn same_settings(o: State, n: State) -> bool {
    &&& n.spec_thunk_stack() == o.spec_thunk_stack()
    &&& n.spec_velocity() == o.spec_velocity()
    &&& n.spec_tempo() == o.spec_tempo()
    &&& n.spec_timeline() == o.spec_timeline()
    &&& n.spec_playhead() == o.spec_playhead()
}

/// `n` is `o` after one read, with `t` queued for `ctx` to run when it is
/// composed.
pub open spec fn queued(o: State, n: State, ctx: Ctx, t: Thunk) -> bool {
    &&& n.spec_thunks() == with_thunk(o.spec_thunks(), ctx, LifeCycleEvent::Composing, t)
    &&& n.same_tree(&o)
    &&& n.same_params(&o)
    &&& same_settings(o, n)
    &&& n.spec_bindings() == o.spec_bindings()
    &&& n.spec_instruments() == o.spec_instruments()
    &&& advanced(o, n)
}

/// Reads the next expression: `Invalid` when the state cannot read.
fn read(state: &mut State) -> (r: Result<Option<Exp>, ComposeError>)
    ensures
        r is Ok <==> readable(*old(state)),
        r matches Ok(o) ==> opt_view(o) == upcoming(*old(state)) && stepped(*old(state), *final(state)),
        r is Err ==> (r matches Err(ComposeError::Invalid)) && unchanged(*old(state), *final(state)),
{
    if state.peeked_len() == 0 && state.index() == usize::MAX {
        return Err(ComposeError::Invalid);
    }
    Ok(state.next())
}

/// Reads the next expression, `Noop` when there is none.
fn read_or_noop(state: &mut State) -> (r: Result<Exp, ComposeError>)
    ensures
        r is Ok <==> readable(*old(state)),
        r matches Ok(e) ==> e@ == upcoming_or_noop(*old(state)) && stepped(*old(state), *final(state)),
        r is Err ==> (r matches Err(ComposeError::Invalid)) && unchanged(*old(state), *final(state)),
{
    match read(state)? {
        Some(e) => Ok(e),
        None => Ok(Exp::Noop),
    }
}

/// Queues a program change for the notes of `ctx`, and reads on.
pub fn compose_prog(prog: Prog, ctx: Ctx, state: &mut State) -> (r: Result<(Exp, Ctx), ComposeError>)
    requires
        old(state).wf(),
    ensures
        wf_grown(*old(state), *final(state)),
        r is Ok <==> readable(*old(state)),
        r matches Ok((e, c)) ==> {
            &&& c == ctx
            &&& e@ == upcoming_or_noop(*old(state))
            &&& queued(*old(state), *final(state), ctx, Thunk::Add(Param::Program(prog)))
        },
        r is Err ==> (r matches Err(ComposeError::Invalid)) && unchanged(*old(state), *final(state)),
{
    let next = read_or_noop(state)?;
    state.add_thunk(ctx, LifeCycleEvent::Composing, Thunk::Add(Param::Program(prog)));
    Ok((next, ctx))
}

/// Queues a register (octave) for the notes of `ctx`, and reads on.
pub fn compose_register(reg: Register, ctx: Ctx, state: &mut State) -> (r: Result<(Exp, Ctx), ComposeError>)
    requires
        old(state).wf(),
    ensures
        wf_grown(*old(state), *final(state)),
        r is Ok <==> readable(*old(state)),
        r matches Ok((e, c)) ==> {
            &&& c == ctx
            &&& e@ == upcoming_or_noop(*old(state))
            &&& queued(*old(state), *final(state), ctx, Thunk::Add(Param::Register(reg)))
        },
        r is Err ==> (r matches Err(ComposeError::Invalid)) && unchanged(*old(state), *final(state)),
{
    let next = read_or_noop(state)?;
    state.add_thunk(ctx, LifeCycleEvent::Composing, Thunk::Add(Param::Register(reg)));
    Ok((next, ctx))
}

/// The expression that `ident` is bound to, seen from `ctx`; a name bound to
/// nothing, or to `Noop`, is undefined.
pub fn compose_ident(ident: Ident, ctx: Ctx, state: &mut State) -> (r: Result<(Exp, Ctx), ComposeError>)
    requires
        old(state).wf(),
    ensures
        *final(state) == *old(state),
        r matches Ok((e, c)) ==> c == ctx && old(state).lookup(ctx, ident) == Some(e@) && !(e@ is Noop),
        r is Err ==> (r matches Err(ComposeError::UndefinedSymbol(i)) && i == ident)
            && (old(state).lookup(ctx, ident) is None || old(state).lookup(ctx, ident) == Some(ExpV::Noop)),
{
    match state.binding(ctx, &ident) {
        Some(e) => Ok((e, ctx)),
        None => Err(ComposeError::UndefinedSymbol(ident)),
    }
}

/// The bindings after binding the name of `d` to its expression in `ctx`.
pub open spec fn with_binding(b: Map<Seq<int>, Map<Seq<int>, ExpV>>, ctx: Ctx, d: ExpDecl) -> Map<
    Seq<int>,
    Map<Seq<int>, ExpV>,
> {
    b.insert(
        ctx_key(ctx),
        (if b.contains_key(ctx_key(ctx)) {
            b[ctx_key(ctx)]
        } else {
            Map::empty()
        }).insert(ident_key(d.ident), (*d.binding)@),
    )
}

/// Binds a name to an expression in `ctx`, and reads on.
pub fn compose_expdecl(expdecl: ExpDecl, ctx: Ctx, state: &mut State) -> (r: Result<(Exp, Ctx), ComposeError>)
    requires
        old(state).wf(),
    ensures
        wf_grown(*old(state), *final(state)),
        r is Ok <==> readable(*old(state)),
        r matches Ok((e, c)) ==> {
            &&& c == ctx
            &&& e@ == upcoming_or_noop(*old(state))
            &&& final(state).spec_bindings() == with_binding(old(state).spec_bindings(), ctx, expdecl)
            &&& final(state).same_tree(old(state))
            &&& final(state).same_params(old(state))
            &&& final(state).spec_thunks() == old(state).spec_thunks()
            &&& same_settings(*old(state), *final(state))
            &&& advanced(*old(state), *final(state))
        },
        r is Err ==> (r matches Err(ComposeError::Invalid)) && unchanged(*old(state), *final(state)),
{
    let next = read_or_noop(state)?;
    let ExpDecl { ident, binding } = expdecl;
    state.add_binding(ctx, ident, *binding);
    Ok((next, ctx))
}

/// What composing a declaration gives: a binding binds its name in `ctx` and
/// the next expression comes back; imports and functions are not handled.
pub open spec fn decl_composed(o: State, n: State, ctx: Ctx, decl: Decl, r: Result<(Exp, Ctx), ComposeError>) -> bool {
    &&& r is Ok <==> (decl is ExpDecl && readable(o))
    &&& r matches Ok((e, c)) ==> c == ctx && e@ == upcoming_or_noop(o)
    &&& match decl {
        Decl::ExpDecl(d) => r is Ok ==> {
            &&& n.spec_bindings() == with_binding(o.spec_bindings(), ctx, d)
            &&& n.same_tree(&o)
            &&& n.same_params(&o)
            &&& n.spec_thunks() == o.spec_thunks()
            &&& advanced(o, n)
        },
        _ => (r matches Err(ComposeError::Unsupported)) && unchanged(o, n),
    }
}

/// Composes a declaration: a binding is made; imports and functions are not
/// handled.
pub fn compose_decl(decl: Decl, ctx: Ctx, state: &mut State) -> (r: Result<(Exp, Ctx), ComposeError>)
    requires
        old(state).wf(),
    ensures
        wf_grown(*old(state), *final(state)),
        decl_composed(*old(state), *final(state), ctx, decl, r),
{
    match decl {
        Decl::ExpDecl(expdecl) => compose_expdecl(expdecl, ctx, state),
        _ => Err(ComposeError::Unsupported),
    }
}

/// What a prefix makes of the expression after it: `@` with a number gives
/// the register of its rounded value's low byte; nothing else is handled.
pub open spec fn prefix_applied(prefix: Prefix, rhs: ExpV) -> Option<ExpV> {
    match (prefix, rhs) {
        (Prefix::Reg, ExpV::Simple(SimpleV::Scalar(Scalar::Pure(Pure::Absolute(a))))) => if a.wf() {
            Some(
                ExpV::Simple(
                    SimpleV::Scalar(
                        Scalar::Register(Register::Reg(low_byte_signed(a.spec_round()) as i8)),
                    ),
                ),
            )
        } else {
            None
        },
        _ => None,
    }
}

/// Whether an absolute number is well formed.
fn absolute_wf(a: &Absolute) -> (r: bool)
    ensures
        r == a.wf(),
{
    match a {
        Absolute::UInt(_) => true,
        Absolute::Float(f) => f.denom > 0,
    }
}

/// What applying a prefix gives: the expression read after it, as
/// `prefix_applied` makes it; it fails where nothing can be read or the
/// prefix cannot be applied.
pub open spec fn prefix_composed(o: State, n: State, ctx: Ctx, prefix: Prefix, r: Result<(Exp, Ctx), ComposeError>) -> bool {
    &&& r is Ok <==> readable(o) && prefix_applied(prefix, upcoming_or_noop(o)) is Some
    &&& r matches Ok((e, c)) ==> c == ctx && Some(e@) == prefix_applied(prefix, upcoming_or_noop(o))
    &&& readable(o) ==> stepped(o, n)
    &&& !readable(o) ==> unchanged(o, n)
}

/// Applies a prefix to the expression read after it.
pub fn compose_prefix(prefix: Prefix, ctx: Ctx, state: &mut State) -> (r: Result<(Exp, Ctx), ComposeError>)
    requires
        old(state).wf(),
    ensures
        wf_grown(*old(state), *final(state)),
        prefix_composed(*old(state), *final(state), ctx, prefix, r),
{
    let rhs = read_or_noop(state)?;
    match (prefix, rhs) {
        (Prefix::Reg, Exp::Simple(Simple::Scalar(Scalar::Pure(Pure::Absolute(abs))))) => {
            if !absolute_wf(&abs) {
                return Err(ComposeError::Invalid);
            }
            let reg = low_byte_i8(abs.as_u64());
            Ok((Exp::Simple(Simple::Scalar(Scalar::Register(Register::Reg(reg)))), ctx))
        },
        _ => Err(ComposeError::Unsupported),
    }
}

/// Infix operators are not handled by composition.
pub fn compose_infix(infix: Infix, ctx: Ctx, state: &mut State) -> (r: Result<(Exp, Ctx), ComposeError>)
    requires
        old(state).wf(),
    ensures
        *final(state) == *old(state),
        r matches Err(ComposeError::Unsupported),
{
    Err(ComposeError::Unsupported)
}

/// The product of the factors.
pub open spec fn product(s: Seq<u64>) -> nat
    decreases s.len(),
{
    if s.len() == 0 {
        1
    } else {
        product(s.drop_last()) * (s.last() as nat)
    }
}

/// A zero factor makes the product zero.
proof fn lemma_product_zero(s: Seq<u64>, i: int)
    requires
        0 <= i < s.len(),
        s[i] == 0,
    ensures
        product(s) == 0,
    decreases s.len(),
{
    let p = product(s.drop_last());
    if i < s.len() - 1 {
        lemma_product_zero(s.drop_last(), i);
        assert(p == 0);
        assert(p * (s.last() as nat) == 0);
    } else {
        assert(s.last() == 0);
        assert(p * (s.last() as nat) == 0);
    }
}

/// With no zero factor, a product of the first factors is at most the whole
/// product.
proof fn lemma_product_prefix(s: Seq<u64>, k: int)
    requires
        0 <= k <= s.len(),
        forall|i: int| 0 <= i < s.len() ==> s[i] >= 1,
    ensures
        product(s.take(k)) <= product(s),
    decreases s.len(),
{
    if k < s.len() {
        assert(s.drop_last().take(k) =~= s.take(k));
        lemma_product_prefix(s.drop_last(), k);
        let p = product(s.drop_last());
        assert(p <= p * (s.last() as nat)) by (nonlinear_arith)
            requires
                s.last() >= 1,
        ;
    } else {
        assert(s.take(k) =~= s);
    }
}

/// The product of the factors, `None` when it does not fit in a `u64`.
fn checked_product(fs: &Vec<u64>) -> (r: Option<u64>)
    ensures
        r == (if product(fs@) <= u64::MAX {
            Some(product(fs@) as u64)
        } else {
            None
        }),
{
    let mut i: usize = 0;
    while i < fs.len()
        invariant
            i <= fs@.len(),
            forall|j: int| 0 <= j < i ==> fs@[j] >= 1,
        decreases fs@.len() - i,
    {
        if fs[i] == 0 {
            proof {
                lemma_product_zero(fs@, i as int);
            }
            return Some(0);
        }
        i = i + 1;
    }
    let mut acc: u64 = 1;
    let mut k: usize = 0;
    proof {
        assert(fs@.take(0) =~= Seq::<u64>::empty());
    }
    while k < fs.len()
        invariant
            k <= fs@.len(),
            forall|j: int| 0 <= j < fs@.len() ==> fs@[j] >= 1,
            acc == product(fs@.take(k as int)),
        decreases fs@.len() - k,
    {
        let wide: u128 = mul_wide(acc, fs[k]);
        proof {
            assert(fs@.take(k + 1).drop_last() =~= fs@.take(k as int));
            assert(wide == product(fs@.take(k + 1)));
        }
        if wide > u64::MAX as u128 {
            proof {
                lemma_product_prefix(fs@, k + 1);
            }
            return None;
        }
        acc = wide as u64;
        k = k + 1;
    }
    proof {
        assert(fs@.take(fs@.len() as int) =~= fs@);
    }
    Some(acc)
}

/// The fraction `n / d` in lowest terms, from factors of each.
fn reduced_product(n: &Vec<u64>, d: &Vec<u64>) -> (r: Result<Fraction, ComposeError>)
    requires
        product(d@) > 0,
    ensures
        r is Ok <==> product(n@) <= u64::MAX && product(d@) <= u64::MAX,
        r matches Ok(f) ==> f == reduced(product(n@), product(d@)),
        r is Err ==> (r matches Err(ComposeError::Overflow)),
{
    match (checked_product(n), checked_product(d)) {
        (Some(a), Some(b)) => Ok(ratio_new(a, b)),
        _ => Err(ComposeError::Overflow),
    }
}

/// The smallest tempo, the first on a tie.
pub open spec fn tempo_min(s: Seq<Mpb>) -> Mpb
    decreases s.len(),
{
    if s.len() <= 1 {
        if s.len() == 1 {
            s[0]
        } else {
            Mpb::default_spec()
        }
    } else {
        let m = tempo_min(s.drop_last());
        if m.0.spec_le(s.last().0) {
            m
        } else {
            s.last()
        }
    }
}

/// The smallest tempo of a nonempty list, the first on a tie.
fn tempo_min_of(v: &Vec<Mpb>) -> (m: Mpb)
    requires
        v@.len() > 0,
    ensures
        m == tempo_min(v@),
{
    let mut m = v[0];
    let mut i: usize = 1;
    proof {
        assert(v@.take(1).drop_last() =~= Seq::<Mpb>::empty());
    }
    while i < v.len()
        invariant
            1 <= i <= v@.len(),
            m == tempo_min(v@.take(i as int)),
        decreases v@.len() - i,
    {
        proof {
            assert(v@.take(i + 1).drop_last() =~= v@.take(i as int));
        }
        if !m.0.le(&v[i].0) {
            m = v[i];
        }
        i = i + 1;
    }
    proof {
        assert(v@.take(v@.len() as int) =~= v@);
    }
    m
}

/// Notes can be added to `ctx`: it is a sequence or a stack.
pub open spec fn playable(s: State, ctx: Ctx) -> bool {
    s.scope_of(ctx) == Scope::Sequence || s.scope_of(ctx) == Scope::Stack
}

/// Whether notes can be added to `ctx`.
fn is_playable(state: &State, ctx: Ctx) -> (r: bool)
    requires
        state.wf(),
    ensures
        r == playable(*state, ctx),
{
    let scope = state.scope(ctx);
    scope == Scope::Sequence || scope == Scope::Stack
}

/// The tables after the pitch `pc` is added to `ctx` and the actions queued
/// for `ctx` run on it.
pub open spec fn note_tables(o: State, ctx: Ctx, pc: Pc) -> Tables {
    let scope = o.scope_of(ctx);
    thunks_applied(
        param_added(o.spec_tables(), ctx, Param::Pc(pc), scope),
        ctx,
        zigzag(event_thunks(o.spec_thunks(), ctx, LifeCycleEvent::Composing)),
        scope,
    )
}

/// `n` is `o` with the pitch `pc` added to `ctx`, the actions queued for
/// `ctx` run on it and emptied, and every other parameter of `ctx` padded to
/// as many values as the last row of pitches.
pub open spec fn noted(o: State, n: State, ctx: Ctx, pc: Pc) -> bool {
    let t = note_tables(o, ctx, pc);
    &&& n.spec_pcs() == t.pcs
    &&& n.spec_programs() == n.padded(t.programs, ctx, Prog(0))
    &&& n.spec_velocities() == n.padded(t.velocities, ctx, Velocity(80))
    &&& n.spec_lengths() == n.padded(t.lengths, ctx, Length::MicroSeconds(Fraction { numer: 0, denom: 1 }))
    &&& n.spec_registers() == n.padded(t.registers, ctx, Register::Reg(4))
    &&& n.spec_tempos() == n.tempos_padded(t.tempos, ctx)
    &&& n.spec_thunks() == thunks_emptied(o.spec_thunks(), ctx, LifeCycleEvent::Composing)
    &&& n.same_tree(&o)
    &&& same_settings(o, n)
    &&& n.spec_bindings() == o.spec_bindings()
    &&& n.spec_instruments() == o.spec_instruments()
}

/// Adds the pitch `pc` to `ctx`, runs the actions queued for `ctx` on it and
/// pads the other parameters to the pitches.
fn place_note(pc: Pc, ctx: Ctx, state: &mut State)
    requires
        old(state).wf(),
        playable(*old(state), ctx),
    ensures
        final(state).wf(),
        noted(*old(state), *final(state), ctx, pc),
        final(state).same_reader(old(state)),
{
    let ghost o = *state;
    Thunk::Add(Param::Pc(pc)).call(ctx, state);
    state.compose_thunks(ctx, ctx);
    let ghost mid = *state;
    state.pad(ctx, 1);
    proof {
        assert(mid.spec_tables() == note_tables(o, ctx, pc));
    }
}

/// Composes a number as a pitch class: the pitch is added to `ctx`, the
/// actions queued for `ctx` run on it, and the other parameters padded.
pub fn compose_absolute(absolute: Absolute, ctx: Ctx, state: &mut State) -> (r: Result<(Exp, Ctx), ComposeError>)
    requires
        old(state).wf(),
    ensures
        wf_grown(*old(state), *final(state)),
        r is Ok <==> playable(*old(state), ctx) && readable(*old(state)),
        r matches Ok((e, c)) ==> {
            &&& c == ctx
            &&& e@ == upcoming_or_noop(*old(state))
            &&& noted(*old(state), *final(state), ctx, Pc::Class(absolute.spec_fraction()))
            &&& advanced(*old(state), *final(state))
        },
        !playable(*old(state), ctx) ==> (r matches Err(ComposeError::Unsupported)) && unchanged(*old(state), *final(state)),
{
    if !is_playable(state, ctx) {
        return Err(ComposeError::Unsupported);
    }
    place_note(Pc::Class(absolute.as_fraction()), ctx, state);
    let next = read_or_noop(state)?;
    Ok((next, ctx))
}

/// Composes a rest: like a pitch, with no pitch.
pub fn compose_rest(ctx: Ctx, state: &mut State) -> (r: Result<(Exp, Ctx), ComposeError>)
    requires
        old(state).wf(),
    ensures
        wf_grown(*old(state), *final(state)),
        r is Ok <==> playable(*old(state), ctx) && readable(*old(state)),
        r matches Ok((e, c)) ==> {
            &&& c == ctx
            &&& e@ == upcoming_or_noop(*old(state))
            &&& noted(*old(state), *final(state), ctx, Pc::Nothing)
            &&& advanced(*old(state), *final(state))
        },
        !playable(*old(state), ctx) ==> (r matches Err(ComposeError::Unsupported)) && unchanged(*old(state), *final(state)),
{
    if !is_playable(state, ctx) {
        return Err(ComposeError::Unsupported);
    }
    place_note(Pc::Nothing, ctx, state);
    let next = read_or_noop(state)?;
    Ok((next, ctx))
}

/// The factors of the numerator and of the denominator of a duration.
pub struct Factors {
    pub numer: Seq<u64>,
    pub denom: Seq<u64>,
}

/// The factors fit: both products fit in a `u64`.
pub open spec fn fits(f: Factors) -> bool {
    product(f.numer) <= u64::MAX && product(f.denom) <= u64::MAX
}

/// The duration the factors stand for, in lowest terms.
pub open spec fn micros(f: Factors) -> Length {
    Length::MicroSeconds(reduced(product(f.numer), product(f.denom)))
}

/// `d<n>` at tempo `t`: `t` microseconds per quarter note, times four, over
/// `n`.
pub open spec fn absolute_factors(t: Mpb, a: Absolute) -> Factors {
    Factors {
        numer: seq![t.0.numer, 4, a.spec_fraction().denom],
        denom: seq![t.0.denom, a.spec_fraction().numer],
    }
}

/// `d<n>` can be measured: the tempo and the number are well formed and the
/// number is not zero.
pub open spec fn absolute_valid(t: Mpb, a: Absolute) -> bool {
    t.0.denom > 0 && a.wf() && a.spec_fraction().numer > 0
}

/// A tuplet of `lhs` notes in the time of `rhs`, on the shortest length `m`
/// of the context: `rhs / lhs * m`.
pub open spec fn tuplet_factors(t: Tuplet, m: LenQ) -> Factors {
    Factors {
        numer: seq![t.rhs.spec_fraction().numer, t.lhs.spec_fraction().denom, q_ratio(m).0 as u64],
        denom: seq![t.rhs.spec_fraction().denom, t.lhs.spec_fraction().numer, q_ratio(m).1 as u64],
    }
}

/// A tuplet can be measured: both numbers are well formed, `lhs` is not
/// zero, and the shortest length has a nonzero denominator.
pub open spec fn tuplet_valid(t: Tuplet, m: LenQ) -> bool {
    t.lhs.wf() && t.rhs.wf() && t.lhs.spec_fraction().numer > 0 && q_ratio(m).1 > 0
}

/// `d<num>/<den>` at the smallest tempo `t` of the context:
/// `num / den` of a whole note, four beats of `t` microseconds.
pub open spec fn rational_factors(q: Rational, t: Mpb) -> Factors {
    Factors {
        numer: seq![q.num.spec_fraction().numer, q.den.spec_fraction().denom, 4, t.0.numer],
        denom: seq![q.num.spec_fraction().denom, q.den.spec_fraction().numer, t.0.denom],
    }
}

/// A fraction of a whole note can be measured: both numbers are well formed,
/// `den` is not zero, and the tempo has a nonzero denominator.
pub open spec fn rational_valid(q: Rational, t: Mpb) -> bool {
    q.num.wf() && q.den.wf() && q.den.spec_fraction().numer > 0 && t.0.denom > 0
}

/// The lengths of `ctx` that `get` reads.
pub open spec fn ctx_lengths(s: State, ctx: Ctx) -> Seq<Length> {
    s.got(s.spec_lengths(), ctx, Length::MicroSeconds(Fraction { numer: 0, denom: 1 }))
}

/// The tempi of `ctx` that `get` reads.
pub open spec fn ctx_tempos(s: State, ctx: Ctx) -> Seq<Mpb> {
    s.got(s.spec_tempos(), ctx, Mpb::default_spec())
}

/// The duration that the factors stand for, or why it cannot be held.
fn measure(n: Vec<u64>, d: Vec<u64>) -> (r: Result<Length, ComposeError>)
    requires
        product(d@) > 0,
    ensures
        r is Ok <==> fits(Factors { numer: n@, denom: d@ }),
        r matches Ok(l) ==> l == micros(Factors { numer: n@, denom: d@ }),
        r is Err ==> (r matches Err(ComposeError::Overflow)),
{
    let f = reduced_product(&n, &d)?;
    Ok(Length::MicroSeconds(f))
}

/// What composing a fraction of a whole note gives: the length it stands for
/// is queued for the notes of `ctx` (a tuplet's in place of the last length),
/// and the next expression comes back; it fails where the length cannot be
/// measured or held, or nothing can be read.
pub open spec fn fractional_composed(
    o: State,
    n: State,
    ctx: Ctx,
    fractional: Fractional,
    r: Result<(Exp, Ctx), ComposeError>,
) -> bool {
    &&& r matches Ok((e, c)) ==> c == ctx && e@ == upcoming_or_noop(o)
    &&& match fractional {
        Fractional::Absolute(a) => {
            let f = absolute_factors(o.spec_tempo(), a);
            &&& r is Ok <==> readable(o) && absolute_valid(o.spec_tempo(), a) && fits(f)
            &&& r is Ok ==> queued(o, n, ctx, Thunk::Add(Param::Length(micros(f))))
        },
        Fractional::Tuplet(t) => {
            let m = row_min(ctx_lengths(o, ctx));
            let f = tuplet_factors(t, m);
            &&& r is Ok <==> readable(o) && playable(o, ctx) && ctx_lengths(o, ctx).len() > 0 && tuplet_valid(t, m)
                && fits(f)
            &&& r is Ok ==> queued(o, n, ctx, Thunk::ReplaceLastLength(micros(f)))
        },
        Fractional::Rational(q) => {
            let t = tempo_min(ctx_tempos(o, ctx));
            let f = rational_factors(q, t);
            &&& r is Ok <==> readable(o) && playable(o, ctx) && ctx_tempos(o, ctx).len() > 0 && rational_valid(q, t)
                && fits(f)
            &&& r is Ok ==> queued(o, n, ctx, Thunk::Add(Param::Length(micros(f))))
        },
    }
}

/// What composing a duration gives: a fraction of a whole note as above; a
/// fixed duration in clock time is not handled and changes nothing.
pub open spec fn duration_composed(o: State, n: State, ctx: Ctx, duration: Duration, r: Result<(Exp, Ctx), ComposeError>) -> bool {
    match duration {
        Duration::Fixed(_) => (r matches Err(ComposeError::Unsupported)) && unchanged(o, n),
        Duration::Fractional(f) => fractional_composed(o, n, ctx, f, r),
    }
}

/// Composes a fraction of a whole note as a duration: the length is queued
/// for the notes of `ctx`; a tuplet puts its length in place of the last
/// length of `ctx`.
pub fn compose_fractional_duration(fractional: Fractional, ctx: Ctx, state: &mut State) -> (r: Result<
    (Exp, Ctx),
    ComposeError,
>)
    requires
        old(state).wf(),
    ensures
        wf_grown(*old(state), *final(state)),
        fractional_composed(*old(state), *final(state), ctx, fractional, r),
{
    let next = read_or_noop(state)?;
    match fractional {
        Fractional::Absolute(abs) => {
            let a = abs.as_fraction();
            let t = state.tempo();
            if t.0.denom == 0 || !absolute_wf(&abs) || a.numer == 0 {
                return Err(ComposeError::Invalid);
            }
            let n = vec![t.0.numer, 4, a.denom];
            let d = vec![t.0.denom, a.numer];
            proof {
                assert(n@ == absolute_factors(old(state).spec_tempo(), abs).numer);
                assert(d@ == absolute_factors(old(state).spec_tempo(), abs).denom);
                reveal_with_fuel(product, 3);
                assert(product(d@) == (t.0.denom as nat) * (a.numer as nat));
                assert(product(d@) > 0) by (nonlinear_arith)
                    requires
                        product(d@) == (t.0.denom as nat) * (a.numer as nat),
                        t.0.denom > 0,
                        a.numer > 0,
                ;
            }
            let micro = measure(n, d)?;
            state.add_thunk(ctx, LifeCycleEvent::Composing, Thunk::Add(Param::Length(micro)));
        },
        Fractional::Tuplet(tuplet) => {
            if !is_playable(state, ctx) {
                return Err(ComposeError::Unsupported);
            }
            let lengths = match state.get(ctx, ParamKind::Length) {
                Column::Length(v) => v,
                _ => {
                    return Err(ComposeError::Invalid);
                },
            };
            if lengths.len() == 0 {
                return Err(ComposeError::Invalid);
            }
            let m = row_min_of(&lengths).as_ratio();
            let l = tuplet.lhs.as_fraction();
            let rh = tuplet.rhs.as_fraction();
            if !absolute_wf(&tuplet.lhs) || !absolute_wf(&tuplet.rhs) || l.numer == 0 || m.denom == 0 {
                return Err(ComposeError::Invalid);
            }
            let n = vec![rh.numer, l.denom, m.numer];
            let d = vec![rh.denom, l.numer, m.denom];
            proof {
                let q = row_min(ctx_lengths(*old(state), ctx));
                assert(q_ratio(q).0 == m.numer && q_ratio(q).1 == m.denom);
                assert(n@ == tuplet_factors(tuplet, q).numer);
                assert(d@ == tuplet_factors(tuplet, q).denom);
                reveal_with_fuel(product, 4);
                assert(product(d@) == (rh.denom as nat) * (l.numer as nat) * (m.denom as nat));
                assert(product(d@) > 0) by (nonlinear_arith)
                    requires
                        product(d@) == (rh.denom as nat) * (l.numer as nat) * (m.denom as nat),
                        rh.denom > 0,
                        l.numer > 0,
                        m.denom > 0,
                ;
            }
            let micro = measure(n, d)?;
            state.add_thunk(ctx, LifeCycleEvent::Composing, Thunk::ReplaceLastLength(micro));
        },
        Fractional::Rational(q) => {
            if !is_playable(state, ctx) {
                return Err(ComposeError::Unsupported);
            }
            let tempos = match state.get(ctx, ParamKind::Tempo) {
                Column::Tempo(v) => v,
                _ => {
                    return Err(ComposeError::Invalid);
                },
            };
            if tempos.len() == 0 {
                return Err(ComposeError::Invalid);
            }
            let t = tempo_min_of(&tempos);
            let nf = q.num.as_fraction();
            let df = q.den.as_fraction();
            if !absolute_wf(&q.num) || !absolute_wf(&q.den) || df.numer == 0 || t.0.denom == 0 {
                return Err(ComposeError::Invalid);
            }
            let n = vec![nf.numer, df.denom, 4, t.0.numer];
            let d = vec![nf.denom, df.numer, t.0.denom];
            proof {
                assert(n@ == rational_factors(q, t).numer);
                assert(d@ == rational_factors(q, t).denom);
                reveal_with_fuel(product, 4);
                assert(product(d@) == (nf.denom as nat) * (df.numer as nat) * (t.0.denom as nat));
                assert(product(d@) > 0) by (nonlinear_arith)
                    requires
                        product(d@) == (nf.denom as nat) * (df.numer as nat) * (t.0.denom as nat),
                        nf.denom > 0,
                        df.numer > 0,
                        t.0.denom > 0,
                ;
            }
            let micro = measure(n, d)?;
            state.add_thunk(ctx, LifeCycleEvent::Composing, Thunk::Add(Param::Length(micro)));
        },
    }
    Ok((next, ctx))
}

/// Composes a duration: fixed durations in clock time are not handled.
pub fn compose_duration(duration: Duration, ctx: Ctx, state: &mut State) -> (r: Result<(Exp, Ctx), ComposeError>)
    requires
        old(state).wf(),
    ensures
        wf_grown(*old(state), *final(state)),
        duration_composed(*old(state), *final(state), ctx, duration, r),
{
    match duration {
        Duration::Fixed(_) => Err(ComposeError::Unsupported),
        Duration::Fractional(fractional) => compose_fractional_duration(fractional, ctx, state),
    }
}

/// The expression last stored, if any.
pub open spec fn stored(s: State) -> Option<ExpV> {
    if s.spec_stack().len() > 0 {
        Some(s.spec_stack().last())
    } else {
        None
    }
}

/// The velocity that an amplitude `a^` gives.
pub open spec fn amplitude_velocity(a: Absolute) -> Velocity {
    Velocity(
        (if a.spec_round() > 255 {
            a.spec_round() % 256
        } else {
            255
        }) as u8,
    )
}

/// Whether a tempo can be made of `bpm` beats per minute.
fn tempo_ok(bpm: &Absolute) -> (r: bool)
    ensures
        r == tempo_computable(*bpm),
{
    let f = bpm.as_fraction();
    absolute_wf(bpm) && f.numer > 0 && f.denom <= u64::MAX / 60_000_000
}

/// What applying a suffix gives. The expression stored before it is taken
/// off; when that is an absolute number, `^` adds the velocity of the
/// amplitude to `ctx`, `bpm` sets the tempo and adds it to `ctx`, and `Hz` is
/// not handled; otherwise the stored expression (or `Noop`) comes back and
/// nothing else changes.
pub open spec fn suffix_composed(o: State, n: State, ctx: Ctx, suffix: Suffix, r: Result<(Exp, Ctx), ComposeError>) -> bool {
    &&& r matches Ok((e, c)) ==> c == ctx
    &&& n.spec_stack() =~= (if o.spec_stack().len() > 0 {
        o.spec_stack().drop_last()
    } else {
        o.spec_stack()
    })
    &&& match stored(o) {
        Some(ExpV::Simple(SimpleV::Scalar(Scalar::Pure(Pure::Absolute(a))))) => match suffix {
            Suffix::Freq => r matches Err(ComposeError::Unsupported),
            Suffix::Amp => {
                &&& r is Ok <==> a.wf() && a.spec_round() <= usize::MAX && playable(o, ctx) && readable(o)
                &&& r matches Ok((e, _)) ==> {
                    &&& e@ == upcoming_or_noop(o)
                    &&& n.spec_tables() == param_added(o.spec_tables(), ctx, Param::Velocity(amplitude_velocity(a)), o.scope_of(ctx))
                    &&& n.spec_tempo() == o.spec_tempo()
                }
            },
            Suffix::Bpm => {
                &&& r is Ok <==> tempo_computable(a) && playable(o, ctx) && readable(o)
                &&& r matches Ok((e, _)) ==> {
                    &&& e@ == upcoming_or_noop(o)
                    &&& n.spec_tempo().0.wf()
                    &&& n.spec_tempo().0.is_quotient_of(Fraction { numer: 60_000_000, denom: 1 }, a.spec_fraction())
                    &&& n.spec_tables() == param_added(o.spec_tables(), ctx, Param::Tempo(n.spec_tempo()), o.scope_of(ctx))
                }
            },
        },
        _ => {
            &&& r matches Ok((e, _))
            &&& e@ == (match stored(o) {
                Some(x) => x,
                None => ExpV::Noop,
            })
            &&& n.spec_tables() == o.spec_tables()
            &&& n.same_tree(&o)
            &&& n.same_rest(&o)
        },
    }
}

/// Applies a suffix to the number stored before it: `^` adds a velocity to
/// `ctx`; `bpm` sets the tempo and adds it to `ctx`; `Hz` is not handled.
/// With no number stored, the stored expression (or `Noop`) comes back.
pub fn compose_suffix(suffix: Suffix, ctx: Ctx, state: &mut State) -> (r: Result<(Exp, Ctx), ComposeError>)
    requires
        old(state).wf(),
    ensures
        wf_grown(*old(state), *final(state)),
        suffix_composed(*old(state), *final(state), ctx, suffix, r),
{
    let lhs = state.load();
    match lhs {
        Some(Exp::Simple(Simple::Scalar(Scalar::Pure(Pure::Absolute(a))))) => {
            match suffix {
                Suffix::Amp => {
                    if !absolute_wf(&a) || a.as_u64() as u128 > usize::MAX as u128 {
                        return Err(ComposeError::Invalid);
                    }
                    if !is_playable(state, ctx) {
                        return Err(ComposeError::Unsupported);
                    }
                    Thunk::Add(Param::Velocity(Velocity::from_absolute(a))).call(ctx, state);
                },
                Suffix::Bpm => {
                    if !tempo_ok(&a) {
                        return Err(ComposeError::Invalid);
                    }
                    if !is_playable(state, ctx) {
                        return Err(ComposeError::Unsupported);
                    }
                    state.set_bpm(a);
                    let t = state.tempo();
                    Thunk::Add(Param::Tempo(t)).call(ctx, state);
                },
                Suffix::Freq => {
                    return Err(ComposeError::Unsupported);
                },
            }
            let next = read_or_noop(state)?;
            Ok((next, ctx))
        },
        Some(other) => Ok((other, ctx)),
        None => Ok((Exp::Noop, ctx)),
    }
}

/// What composing a bare number gives. With nothing to read it fails; before
/// an infix operator it is not handled; before `bpm` an absolute number adds
/// its pitch class to `ctx` and the expression after `bpm` comes back (other
/// suffixes, or other numbers, are not handled); before anything else an
/// absolute number is composed as a pitch class (relative and rational
/// numbers are not handled).
pub open spec fn pure_composed(o: State, n: State, ctx: Ctx, pure: Pure, r: Result<(Exp, Ctx), ComposeError>) -> bool {
    &&& r matches Ok((e, c)) ==> c == ctx
    &&& !readable(o) ==> (r matches Err(ComposeError::Invalid))
    &&& readable(o) ==> match upcoming_or_noop(o) {
        ExpV::Simple(SimpleV::Infix(_)) => r matches Err(ComposeError::Unsupported),
        ExpV::Simple(SimpleV::Suffix(sf)) => {
            &&& !(sf is Bpm && pure is Absolute) ==> (r matches Err(ComposeError::Unsupported))
            &&& sf is Bpm ==> (pure matches Pure::Absolute(a) ==> {
                &&& r is Ok <==> a.wf() && a.spec_round() <= usize::MAX && playable(o, ctx) && readable_twice(o)
                &&& !(a.wf() && a.spec_round() <= usize::MAX) ==> (r matches Err(ComposeError::Invalid))
                &&& r matches Ok((e, _)) ==> {
                    &&& e@ == second_upcoming(o)
                    &&& n.spec_tables() == param_added(o.spec_tables(), ctx, Param::Pc(absolute_pc(a)), o.scope_of(ctx))
                    &&& n.same_tree(&o)
                    &&& n.same_rest(&o)
                }
            })
        },
        _ => {
            &&& !(pure is Absolute) ==> (r matches Err(ComposeError::Unsupported))
            &&& pure matches Pure::Absolute(a) ==> {
                &&& r is Ok <==> playable(o, ctx)
                &&& r matches Ok((e, _)) ==> {
                    &&& e@ == upcoming_or_noop(o)
                    &&& noted(o, n, ctx, Pc::Class(a.spec_fraction()))
                    &&& advanced(o, n)
                }
            }
        },
    }
}

/// Composes a bare number: as a pitch class, unless an operator follows. A
/// `bpm` after it adds the pitch class of its value; other operators, and
/// relative or rational numbers, are not handled.
pub fn compose_pure(pure: Pure, ctx: Ctx, state: &mut State) -> (r: Result<(Exp, Ctx), ComposeError>)
    requires
        old(state).wf(),
    ensures
        wf_grown(*old(state), *final(state)),
        pure_composed(*old(state), *final(state), ctx, pure, r),
{
    let next = read_or_noop(state)?;
    match next {
        Exp::Simple(Simple::Suffix(suffix)) => {
            match (suffix, pure) {
                (Suffix::Bpm, Pure::Absolute(a)) => {
                    if !absolute_wf(&a) || a.as_u64() as u128 > usize::MAX as u128 {
                        return Err(ComposeError::Invalid);
                    }
                    if !is_playable(state, ctx) {
                        return Err(ComposeError::Unsupported);
                    }
                    Thunk::Add(Param::Pc(Pc::from_absolute(a))).call(ctx, state);
                    let n = read_or_noop(state)?;
                    Ok((n, ctx))
                },
                _ => Err(ComposeError::Unsupported),
            }
        },
        Exp::Simple(Simple::Infix(infix)) => compose_infix(infix, ctx, state),
        next => {
            let ghost s1 = *state;
            state.push_back(next);
            proof {
                assert(state.spec_peeked().drop_last() =~= s1.spec_peeked());
            }
            match pure {
                Pure::Absolute(a) => compose_absolute(a, ctx, state),
                _ => Err(ComposeError::Unsupported),
            }
        },
    }
}

/// What composing a value gives: a duration, a pitch class (a frequency
/// too), a bare number or a rest as described for each; a dynamic adds its
/// velocity to `ctx`; a program change or a register is queued for the notes
/// of `ctx`; a tuplet alone is not handled.
pub open spec fn scalar_composed(o: State, n: State, ctx: Ctx, scalar: Scalar, r: Result<(Exp, Ctx), ComposeError>) -> bool {
    &&& r matches Ok((e, c)) ==> c == ctx
    &&& match scalar {
        Scalar::Duration(d) => duration_composed(o, n, ctx, d, r),
        Scalar::Pure(p) => pure_composed(o, n, ctx, p, r),
        Scalar::Tuplet(_) => (r matches Err(ComposeError::Unsupported)) && unchanged(o, n),
        Scalar::Prog(p) => {
            &&& r is Ok <==> readable(o)
            &&& r matches Ok((e, _)) ==> e@ == upcoming_or_noop(o) && queued(o, n, ctx, Thunk::Add(Param::Program(p)))
        },
        Scalar::Register(g) => {
            &&& r is Ok <==> readable(o)
            &&& r matches Ok((e, _)) ==> e@ == upcoming_or_noop(o) && queued(o, n, ctx, Thunk::Add(Param::Register(g)))
        },
        Scalar::Rest => {
            &&& r is Ok <==> playable(o, ctx) && readable(o)
            &&& r matches Ok((e, _)) ==> e@ == upcoming_or_noop(o) && noted(o, n, ctx, Pc::Nothing)
        },
        Scalar::Frequency(a) => {
            &&& r is Ok <==> playable(o, ctx) && readable(o)
            &&& r matches Ok((e, _)) ==> e@ == upcoming_or_noop(o) && noted(o, n, ctx, Pc::Class(a.spec_fraction()))
        },
        Scalar::Dynamic(d) => {
            &&& r is Ok <==> playable(o, ctx) && readable(o)
            &&& r matches Ok((e, _)) ==> e@ == upcoming_or_noop(o) && n.spec_tables() == param_added(
                o.spec_tables(),
                ctx,
                Param::Velocity(Velocity(dynamic_velocity(d.0@))),
                o.scope_of(ctx),
            )
        },
    }
}

/// Composes a value.
pub fn compose_scalar(scalar: Scalar, ctx: Ctx, state: &mut State) -> (r: Result<(Exp, Ctx), ComposeError>)
    requires
        old(state).wf(),
    ensures
        wf_grown(*old(state), *final(state)),
        scalar_composed(*old(state), *final(state), ctx, scalar, r),
{
    match scalar {
        Scalar::Duration(duration) => compose_duration(duration, ctx, state),
        Scalar::Frequency(absolute) => compose_absolute(absolute, ctx, state),
        Scalar::Pure(pure) => compose_pure(pure, ctx, state),
        Scalar::Dynamic(dynamic) => {
            if !is_playable(state, ctx) {
                return Err(ComposeError::Unsupported);
            }
            Thunk::Add(Param::Velocity(Velocity::from_dynamic(&dynamic))).call(ctx, state);
            let next = read_or_noop(state)?;
            Ok((next, ctx))
        },
        Scalar::Rest => compose_rest(ctx, state),
        Scalar::Tuplet(_) => Err(ComposeError::Unsupported),
        Scalar::Prog(prog) => compose_prog(prog, ctx, state),
        Scalar::Register(register) => compose_register(register, ctx, state),
    }
}

/// What composing a simple expression gives: a prefix, suffix, declaration
/// or value as described for each; a name gives its binding and changes
/// nothing; an infix operator is not handled and changes nothing.
pub open spec fn simple_composed(o: State, n: State, ctx: Ctx, simple: Simple, r: Result<(Exp, Ctx), ComposeError>) -> bool {
    &&& r matches Ok((e, c)) ==> c == ctx
    &&& match simple {
        Simple::Prefix(p) => prefix_composed(o, n, ctx, p, r),
        Simple::Infix(_) => (r matches Err(ComposeError::Unsupported)) && n == o,
        Simple::Suffix(sf) => suffix_composed(o, n, ctx, sf, r),
        Simple::Decl(d) => decl_composed(o, n, ctx, d, r),
        Simple::Scalar(sc) => scalar_composed(o, n, ctx, sc, r),
        Simple::Ident(i) => {
            &&& n == o
            &&& r matches Ok((e, _)) ==> o.lookup(ctx, i) == Some(e@) && !(e@ is Noop)
            &&& r is Err ==> (r matches Err(ComposeError::UndefinedSymbol(j)) && j == i) && (o.lookup(ctx, i) is None
                || o.lookup(ctx, i) == Some(ExpV::Noop))
        },
    }
}

/// Composes a simple expression.
pub fn compose_simple(simple: Simple, ctx: Ctx, state: &mut State) -> (r: Result<(Exp, Ctx), ComposeError>)
    requires
        old(state).wf(),
    ensures
        wf_grown(*old(state), *final(state)),
        simple_composed(*old(state), *final(state), ctx, simple, r),
{
    match simple {
        Simple::Prefix(prefix) => compose_prefix(prefix, ctx, state),
        Simple::Infix(infix) => compose_infix(infix, ctx, state),
        Simple::Suffix(suffix) => compose_suffix(suffix, ctx, state),
        Simple::Decl(decl) => compose_decl(decl, ctx, state),
        Simple::Scalar(scalar) => compose_scalar(scalar, ctx, state),
        Simple::Ident(ident) => compose_ident(ident, ctx, state),
    }
}

/// The list after each prefix directly followed by a value is applied to it,
/// left to right; nothing when a prefix cannot be applied.
pub open spec fn folded(s: Seq<ExpV>) -> Option<Seq<ExpV>>
    decreases s.len(),
{
    if s.len() == 0 {
        Some(Seq::empty())
    } else {
        match folded(s.drop_last()) {
            None => None,
            Some(acc) => {
                let rhs = s.last();
                if acc.len() > 0 && (acc.last() is Simple && acc.last()->Simple_0 is Prefix) && (rhs is Simple
                    && rhs->Simple_0 is Scalar) {
                    match prefix_applied(acc.last()->Simple_0->Prefix_0, rhs) {
                        Some(e) => if e is Noop {
                            Some(acc.drop_last())
                        } else {
                            Some(acc.drop_last().push(e))
                        },
                        None => None,
                    }
                } else {
                    Some(acc.push(rhs))
                }
            },
        }
    }
}

/// Once a prefix of the list cannot be folded, neither can the list.
proof fn lemma_folded_none(v: Seq<Exp>, k: int)
    requires
        0 <= k <= v.len(),
        folded(view_exps(v.take(k))) is None,
    ensures
        folded(view_exps(v)) is None,
    decreases v.len() - k,
{
    if k < v.len() {
        lemma_view_exps_take(v, v.take(k), k);
        assert(view_exps(v.take(k + 1)).drop_last() =~= view_exps(v.take(k)));
        lemma_folded_none(v, k + 1);
    } else {
        assert(v.take(k) =~= v);
    }
}

/// Applies each prefix directly followed by a value to it.
fn fold_prefixes(ctx: Ctx, exps: Vec<Exp>, state: &mut State) -> (r: Result<Vec<Exp>, ComposeError>)
    requires
        old(state).wf(),
    ensures
        final(state).wf(),
        unchanged(*old(state), *final(state)),
        r matches Ok(v) ==> folded(view_exps(exps@)) == Some(view_exps(v@)),
        r is Err ==> folded(view_exps(exps@)) is None,
{
    let mut out: Vec<Exp> = Vec::new();
    let mut i: usize = 0;
    proof {
        assert(exps@.take(0) =~= Seq::<Exp>::empty());
        assert(view_exps(out@) =~= Seq::empty());
    }
    while i < exps.len()
        invariant
            i <= exps@.len(),
            state.wf(),
            unchanged(*old(state), *state),
            folded(view_exps(exps@.take(i as int))) == Some(view_exps(out@)),
        decreases exps@.len() - i,
    {
        let rhs = clone_exp(&exps[i]);
        let ghost acc = view_exps(out@);
        proof {
            lemma_view_exps_take(exps@, exps@.take(i as int), i as int);
            assert(exps@.take(i + 1).drop_last() =~= exps@.take(i as int));
            assert(view_exps(exps@.take(i + 1)) == view_exps(exps@.take(i as int)).push(rhs@));
            assert(view_exps(exps@.take(i + 1)).drop_last() =~= view_exps(exps@.take(i as int)));
        }
        let ghost before = out@;
        match out.pop() {
            Some(lhs) => {
                proof {
                    assert(before == out@.push(lhs));
                    lemma_view_exps_push(out@, lhs);
                    assert(acc.drop_last() =~= view_exps(out@));
                }
                let prefix = match &lhs {
                    Exp::Simple(Simple::Prefix(p)) => Some(*p),
                    _ => None,
                };
                let rhs_scalar = match &rhs {
                    Exp::Simple(Simple::Scalar(_)) => true,
                    _ => false,
                };
                if prefix.is_some() && rhs_scalar {
                    let ghost s0 = *state;
                    state.push_back(rhs);
                    proof {
                        assert(state.spec_peeked().drop_last() =~= s0.spec_peeked());
                    }
                    let res = compose_prefix(prefix.unwrap(), ctx, state);
                    match res {
                        Ok((e, _)) => {
                            if !(match &e {
                                Exp::Noop => true,
                                _ => false,
                            }) {
                                let ghost o2 = out@;
                                out.push(e);
                                proof {
                                    lemma_view_exps_push(o2, e);
                                }
                            }
                        },
                        Err(err) => {
                            proof {
                                lemma_folded_none(exps@, i + 1);
                            }
                            return Err(err);
                        },
                    }
                } else {
                    let ghost o1 = out@;
                    out.push(lhs);
                    proof {
                        lemma_view_exps_push(o1, lhs);
                    }
                    let ghost o2 = out@;
                    out.push(rhs);
                    proof {
                        lemma_view_exps_push(o2, rhs);
                        assert(view_exps(out@) =~= acc.push(rhs@));
                    }
                }
            },
            None => {
                proof {
                    lemma_view_exps_len(before);
                }
                let ghost o1 = out@;
                out.push(rhs);
                proof {
                    lemma_view_exps_push(o1, rhs);
                }
            },
        }
        i = i + 1;
    }
    proof {
        assert(exps@.take(exps@.len() as int) =~= exps@);
    }
    Ok(out)
}

/// Where reading resumes once a group is composed: the reading position,
/// before whatever was pushed back.
pub open spec fn resume_index(s: State) -> int {
    s.spec_index() - s.spec_peeked().len()
}

/// The expression read where reading resumes, `Noop` past the end.
pub open spec fn resumed(s: State) -> ExpV {
    let i = resume_index(s);
    if 0 <= i < s.spec_exps().len() {
        s.spec_exps()[i]
    } else {
        ExpV::Noop
    }
}

/// The expression is an infix or a suffix operator.
pub open spec fn is_operator(e: ExpV) -> bool {
    e is Simple && (e->Simple_0 is Infix || e->Simple_0 is Suffix)
}

/// Whether the actions that `from` has for `event` can run in `into`: it has
/// none, or `into` is a sequence or a stack.
fn thunks_fit(state: &State, from: Ctx, into: Ctx, event: LifeCycleEvent) -> (r: bool)
    requires
        state.wf(),
    ensures
        r == (event_thunks(state.spec_thunks(), from, event).len() == 0 || playable(*state, into)),
{
    state.thunks(from, event).len() == 0 || is_playable(state, into)
}

/// Composes a list of expressions in `ctx`: prefixes are applied to the values
/// after them, then each expression is composed in turn until the list ends.
/// Reading then resumes where it was, before what was pushed back, and the
/// expression there comes back.
pub fn compose(ctx: Ctx, exps: Vec<Exp>, state: &mut State, depth: usize) -> (r: Result<(Exp, Ctx), ComposeError>)
    requires
        composable(*old(state), ctx),
    ensures
        wf_grown(*old(state), *final(state)),
        r matches Ok((e, c)) ==> {
            &&& c == ctx
            &&& e@ == resumed(*old(state))
            &&& final(state).spec_exps() == old(state).spec_exps()
            &&& final(state).spec_stack() == old(state).spec_stack()
            &&& final(state).spec_peeked().len() == 0
            &&& final(state).spec_index() == resume_index(*old(state)) + 1
        },
        old(state).spec_peeked().len() > old(state).spec_index() ==> (r matches Err(ComposeError::Invalid)),
        exps@.len() == 0 && old(state).spec_peeked().len() <= old(state).spec_index() && resume_index(*old(state)) < usize::MAX
            ==> r is Ok && final(state).same_tree(old(state)) && final(state).same_params(old(state)) && final(state).same_rest(
            old(state),
        ),
        exps@.len() == 1 && (exps@[0] matches Exp::Compound(c) && empty_group_fits(*old(state), ctx, c, depth)) ==> r is Ok
            && final(state).children_of(next_ctx(*old(state))).len() == 0,
        r is Ok ==> exists|ss: Seq<State>, ms: Seq<Exp>| #[trigger] list_composed(*old(state), *final(state), view_exps(exps@), ss, ms, ctx, depth),
    decreases depth, 2nat,
{
    if state.peeked_len() > state.index() {
        return Err(ComposeError::Invalid);
    }
    let ghost empty = exps@.len() == 0;
    let ghost one = exps@.len() == 1 && (exps@[0] matches Exp::Compound(c) && empty_group_fits(*old(state), ctx, c, depth));
    let ghost first = if exps@.len() > 0 { view_exp(exps@[0]) } else { ExpV::Noop };
    let ghost one_c: Compound = if exps@.len() > 0 && exps@[0] is Compound { exps@[0]->Compound_0 } else { arbitrary() };
    proof {
        if exps@.len() == 1 {
            assert(exps@.drop_last() =~= Seq::<Exp>::empty());
            assert(view_exps(exps@.drop_last()) =~= Seq::<ExpV>::empty());
            assert(exps@.last() == exps@[0]);
            assert(view_exps(exps@) =~= seq![first]);
        }
        if one {
            assert(first == view_exp(Exp::Compound(one_c)));
            assert(empty_group_fits(*old(state), ctx, one_c, depth));
        }
    }
    let ghost given = exps@;
    let exps = if exps.len() > 1 {
        fold_prefixes(ctx, exps, state)?
    } else {
        exps
    };
    let ghost list = view_exps(exps@);
    proof {
        lemma_view_exps_len(given);
        assert(composed_list(view_exps(given)) == Some(list));
    }
    let ghost o = *state;
    let (exps_, index_) = state.set_exps(exps, 0);
    let stack = state.set_stack(Vec::new());
    proof {
        assert(view_exps(Seq::<Exp>::empty()) =~= Seq::<ExpV>::empty());
    }
    let mut m = read_or_noop(state)?;
    let ghost s_start = *state;
    let ghost m_start = m;
    let ghost mut ss: Seq<State> = seq![*state];
    let ghost mut ms: Seq<Exp> = seq![m];
    proof {
        assert(steps_composed(ss, ms, ctx, depth));
        assert(start_of(*old(state), s_start, m_start, list));
    }
    let mut steps: usize = 0;
    #[verifier::loop_isolation(false)]
    loop
        invariant
            composable(*state, ctx),
            wf_grown(*old(state), *state),
            view_exps(exps_@) == o.spec_exps(),
            index_ == resume_index(o),
            view_exps(stack@) == o.spec_stack(),
            o.spec_exps() == old(state).spec_exps(),
            o.spec_stack() == old(state).spec_stack(),
            resume_index(o) == resume_index(*old(state)),
            empty ==> state.spec_exps().len() == 0 && state.spec_peeked().len() == 0 && steps <= 1,
            empty ==> state.same_tree(old(state)) && state.same_params(old(state)) && state.same_rest(old(state)),
            empty && steps == 0 ==> m@ == ExpV::Noop && state.spec_index() == 1,
            empty && steps == 1 ==> m@ == ExpV::EOI,
            one ==> state.spec_exps() == seq![first] && steps <= 2,
            one ==> first == view_exp(Exp::Compound(one_c)) && empty_group_fits(*old(state), ctx, one_c, depth),
            one && steps == 0 ==> m@ == first && state.spec_index() == 1 && state.spec_peeked().len() == 0
                && state.same_tree(old(state)) && state.same_params(old(state)) && state.same_rest(old(state)),
            one && steps == 1 ==> m@ == ExpV::Noop && state.spec_index() == 2 && state.spec_peeked().len() == 0,
            one && steps >= 1 ==> state.children_of(next_ctx(*old(state))).len() == 0,
            one && steps == 2 ==> m@ == ExpV::EOI && state.spec_peeked().len() == 0,
            ss.len() == ms.len(),
            ss.len() >= 1,
            ss[0] == s_start,
            ms[0] == m_start,
            ss.last() == *state,
            ms.last() == m,
            steps_composed(ss, ms, ctx, depth),
        decreases MAX_STEPS - steps,
    {
        if steps >= MAX_STEPS {
            return Err(ComposeError::Exhausted);
        }
        steps = steps + 1;
        match m {
            Exp::Noop => {
                let ghost before = *state;
                let ghost m0 = m;
                m = match read(state)? {
                    Some(Exp::Noop) => Exp::EOI,
                    Some(e) => e,
                    None => Exp::EOI,
                };
                proof {
                    assert(loop_step(before, *state, m0, m, ctx, depth));
                    lemma_steps_push(ss, ms, *state, m, ctx, depth);
                    ss = ss.push(*state);
                    ms = ms.push(m);
                }
            },
            Exp::EOI => {
                break ;
            },
            exp => {
                let ghost before = *state;
                let res = compose_exp(exp, ctx, state, depth);
                proof {
                    if one {
                        assert(steps == 1);
                        assert(upcoming_or_noop(before) == ExpV::Noop);
                        let c = exp->Compound_0;
                        assert(view_compound(c) == view_compound(one_c));
                        let mm = choose|mm: State| reread(before, mm) && #[trigger] compound_composed(mm, *state, ctx, c, depth, res);
                        assert(next_ctx(mm) == next_ctx(*old(state)));
                        assert(empty_group_fits(mm, ctx, c, depth));
                        assert(res is Ok);
                        assert(resumed(mm) == ExpV::Noop);
                    }
                }
                let (e, _) = res?;
                proof {
                    assert(loop_step(before, *state, exp, e, ctx, depth));
                    lemma_steps_push(ss, ms, *state, e, ctx, depth);
                    ss = ss.push(*state);
                    ms = ms.push(e);
                }
                m = e;
            },
        }
    }
    if state.peeked_len() > state.index() {
        return Err(ComposeError::Invalid);
    }
    let ghost s_end = *state;
    state.set_exps(exps_, index_);
    state.set_stack(stack);
    let next = read_or_noop(state)?;
    proof {
        assert(list_composed(*old(state), *state, view_exps(given), ss, ms, ctx, depth));
    }
    Ok((next, ctx))
}

/// The list that `compose` composes: the expressions with their prefixes
/// applied when there is more than one.
pub open spec fn composed_list(v: Seq<ExpV>) -> Option<Seq<ExpV>> {
    if v.len() > 1 {
        folded(v)
    } else {
        Some(v)
    }
}

/// What the expression after `Noop` is: the next one read, and the end of
/// the input when there is none or it is `Noop` again.
pub open spec fn after_noop(a: State) -> ExpV {
    match upcoming(a) {
        Some(ExpV::Noop) => ExpV::EOI,
        Some(e) => e,
        None => ExpV::EOI,
    }
}

/// One step of `compose` from `a` with `m` at hand to `b` with `m2` at hand:
/// a `Noop` reads on; any other expression but the end of the input is
/// composed by `compose_exp`, which gives `m2`.
pub open spec fn loop_step(a: State, b: State, m: Exp, m2: Exp, ctx: Ctx, depth: usize) -> bool {
    if m@ is Noop {
        stepped(a, b) && m2@ == after_noop(a)
    } else {
        !(m@ is EOI) && exp_composed(a, b, m, ctx, depth, Ok((m2, ctx)))
    }
}

/// Step `i` of a run of `compose`.
pub open spec fn step_at(ss: Seq<State>, ms: Seq<Exp>, i: int, ctx: Ctx, depth: usize) -> bool {
    loop_step(ss[i], ss[i + 1], ms[i], ms[i + 1], ctx, depth)
}

/// `ss` are the states and `ms` the expressions at hand of a run of
/// `compose`, each following from the one before by a step.
pub open spec fn steps_composed(ss: Seq<State>, ms: Seq<Exp>, ctx: Ctx, depth: usize) -> bool {
    &&& ss.len() == ms.len()
    &&& ss.len() >= 1
    &&& forall|i: int| 0 <= i < ss.len() - 1 ==> #[trigger] step_at(ss, ms, i, ctx, depth)
}

/// `s` and `m` are where `compose` starts from `o` on `list`: reading `list`
/// from its start with nothing stored or pushed back, its first expression
/// (or `Noop`) read, and nothing else changed.
pub open spec fn start_of(o: State, s: State, m: Exp, list: Seq<ExpV>) -> bool {
    &&& s.spec_exps() == list
    &&& s.spec_stack().len() == 0
    &&& s.spec_peeked().len() == 0
    &&& s.spec_index() == 1
    &&& s.same_tree(&o)
    &&& s.same_params(&o)
    &&& s.same_rest(&o)
    &&& m@ == (if list.len() > 0 { list[0] } else { ExpV::Noop })
}

/// What `compose` does from `o` to `n` on the expressions `exps`: their list
/// (`composed_list`) is read from its start, each expression is composed in
/// turn by the steps `ss`/`ms` until the end of the input, and then reading
/// resumes where it was, with the tree, parameters and the rest as the last
/// step left them.
pub open spec fn list_composed(o: State, n: State, exps: Seq<ExpV>, ss: Seq<State>, ms: Seq<Exp>, ctx: Ctx, depth: usize) -> bool {
    &&& composed_list(exps) matches Some(list)
    &&& steps_composed(ss, ms, ctx, depth)
    &&& start_of(o, ss[0], ms[0], composed_list(exps)->0)
    &&& ms.last()@ == ExpV::EOI
    &&& n.same_tree(&ss.last())
    &&& n.same_params(&ss.last())
    &&& n.same_rest(&ss.last())
}

proof fn lemma_steps_push(ss: Seq<State>, ms: Seq<Exp>, s: State, m: Exp, ctx: Ctx, depth: usize)
    requires
        steps_composed(ss, ms, ctx, depth),
        loop_step(ss.last(), s, ms.last(), m, ctx, depth),
    ensures
        steps_composed(ss.push(s), ms.push(m), ctx, depth),
{
    let ss2 = ss.push(s);
    let ms2 = ms.push(m);
    assert forall|i: int| 0 <= i < ss2.len() - 1 implies #[trigger] step_at(ss2, ms2, i, ctx, depth) by {
        if i < ss.len() - 1 {
            assert(step_at(ss, ms, i, ctx, depth));
            assert(ss2[i] == ss[i] && ss2[i + 1] == ss[i + 1] && ms2[i] == ms[i] && ms2[i + 1] == ms[i + 1]);
        } else {
            assert(ss2[i] == ss.last() && ss2[i + 1] == s && ms2[i] == ms.last() && ms2[i + 1] == m);
        }
    }
}

/// `m` is `o` after the next expression was read and pushed back again: it
/// reads the same, and nothing else changed.
pub open spec fn reread(o: State, m: State) -> bool {
    &&& m.wf() == o.wf()
    &&& m.same_tree(&o)
    &&& m.same_params(&o)
    &&& m.same_rest(&o)
    &&& m.spec_exps() == o.spec_exps()
    &&& m.spec_stack() == o.spec_stack()
    &&& m.spec_stack_indexes() == o.spec_stack_indexes()
    &&& if o.spec_peeked().len() > 0 {
        m.spec_index() == o.spec_index() && m.spec_peeked() == o.spec_peeked()
    } else {
        m.spec_index() == o.spec_index() + 1 && m.spec_peeked() == seq![upcoming_or_noop(o)]
    }
}

/// What composing the expression `exp` in `ctx` does, from `o` to `n` with
/// result `r`: the state stays well formed and makes no fewer contexts; an
/// operator coming next takes the expression as its operand; otherwise a
/// value, a name, a declaration or a group is composed after the next
/// expression is read and pushed back.
pub open spec fn exp_composed(o: State, n: State, exp: Exp, ctx: Ctx, depth: usize, r: Result<(Exp, Ctx), ComposeError>) -> bool {
    &&& wf_grown(o, n)
    &&& r matches Ok((e, c)) ==> c == ctx
    &&& !readable(o) ==> (r matches Err(ComposeError::Invalid))
    &&& readable(o) && is_operator(upcoming_or_noop(o)) && !(exp@ is Simple
        && exp@->Simple_0 is Ident) ==> {
        &&& r matches Ok((e, _))
        &&& e@ == upcoming_or_noop(o)
        &&& n.spec_stack() == o.spec_stack().push(exp@)
        &&& n.spec_exps() == o.spec_exps()
        &&& n.same_tree(&o)
        &&& n.same_params(&o)
        &&& n.same_rest(&o)
    }
    &&& readable(o) ==> (exp matches Exp::Simple(s) ==> ((!is_operator(upcoming_or_noop(o)) || s is Ident)
        ==> exists|m: State| reread(o, m) && #[trigger] simple_composed(m, n, ctx, s, r)))
    &&& readable(o) ==> (exp matches Exp::Decl(d) ==> (!is_operator(upcoming_or_noop(o))
        ==> exists|m: State| reread(o, m) && #[trigger] decl_composed(m, n, ctx, d, r)))
    &&& readable(o) && !is_operator(upcoming_or_noop(o)) && exp@ is EOI ==> (r matches Ok((e, _))
        && e@ == ExpV::EOI)
    &&& readable(o) && !is_operator(upcoming_or_noop(o)) && exp@ is Noop ==> r is Ok
    &&& readable(o) ==> (exp matches Exp::Compound(c) ==> (!is_operator(upcoming_or_noop(o))
        ==> exists|m: State| reread(o, m) && #[trigger] compound_composed(m, n, ctx, c, depth, r)))
}

/// Composes one expression in `ctx`. When an infix or suffix operator comes
/// next, the expression (unless it is a name) is stored for the operator and
/// the operator comes back; otherwise a name gives its binding, and groups,
/// values and declarations are composed.
pub fn compose_exp(exp: Exp, ctx: Ctx, state: &mut State, depth: usize) -> (r: Result<(Exp, Ctx), ComposeError>)
    requires
        composable(*old(state), ctx),
    ensures
        exp_composed(*old(state), *final(state), exp, ctx, depth, r),
    decreases depth, 1nat,
{
    let next = read_or_noop(state)?;
    let is_op = match &next {
        Exp::Simple(Simple::Infix(_)) => true,
        Exp::Simple(Simple::Suffix(_)) => true,
        _ => false,
    };
    let is_ident = match &exp {
        Exp::Simple(Simple::Ident(_)) => true,
        _ => false,
    };
    if is_op && !is_ident {
        state.store(exp);
        return Ok((next, ctx));
    }
    state.push_back(next);
    let ghost m = *state;
    proof {
        if old(state).spec_peeked().len() > 0 {
            assert(m.spec_peeked() =~= old(state).spec_peeked());
        } else {
            assert(m.spec_peeked() =~= seq![upcoming_or_noop(*old(state))]);
        }
        assert(reread(*old(state), m));
    }
    match exp {
        Exp::Noop => {
            let n = match read(state)? {
                Some(Exp::Noop) => Exp::EOI,
                Some(e) => e,
                None => Exp::Noop,
            };
            Ok((n, ctx))
        },
        Exp::EOI => Ok((Exp::EOI, ctx)),
        Exp::Simple(Simple::Ident(ident)) => {
            let r = compose_ident(ident, ctx, state);
            assert(simple_composed(m, *state, ctx, Simple::Ident(ident), r));
            r
        },
        Exp::Simple(simple) => {
            let r = compose_simple(simple, ctx, state);
            assert(simple_composed(m, *state, ctx, simple, r));
            r
        },
        Exp::Compound(compound) => {
            let r = compose_compound(compound, ctx, state, depth);
            assert(compound_composed(m, *state, ctx, compound, depth, r));
            r
        },
        Exp::Decl(decl) => {
            let r = compose_decl(decl, ctx, state);
            assert(decl_composed(m, *state, ctx, decl, r));
            r
        },
    }
}

/// `n` read on where `o` resumes, and `e` is what it read there: the same
/// expressions and store, nothing pushed back, the reading position one past
/// where `o` resumes.
pub open spec fn resumed_after(o: State, n: State, e: ExpV) -> bool {
    &&& e == resumed(o)
    &&& n.spec_exps() == o.spec_exps()
    &&& n.spec_stack() == o.spec_stack()
    &&& n.spec_peeked().len() == 0
    &&& n.spec_index() == resume_index(o) + 1
}

/// What composing the group `c` in `ctx` from `m` to `n` gives: success when
/// the group is empty and fits, and on success the expression read on.
pub open spec fn compound_composed(m: State, n: State, ctx: Ctx, c: Compound, depth: usize, r: Result<(Exp, Ctx), ComposeError>) -> bool {
    &&& empty_group_fits(m, ctx, c, depth) ==> r is Ok && n.children_of(next_ctx(m)).len() == 0
    &&& r matches Ok((e, _)) ==> resumed_after(m, n, e@)
}

/// What composing the group `c` in `ctx` does from `o` to `n`: `m1` is `o`
/// with a new context made under `ctx` (under no context when it is the
/// root) and scoped as the group says, the group's expressions are composed
/// in it from `m1` to `m2` (`list_composed`, one level less deep), and what
/// follows runs the new context's actions and may move its rows up into
/// `ctx`, reading nothing and making no context.
pub open spec fn group_composed(o: State, m1: State, m2: State, n: State, c: Compound, ctx: Ctx, ss: Seq<State>, ms: Seq<Exp>, depth: usize) -> bool {
    let child = next_ctx(o);
    &&& m1.spec_ctx_count() == o.spec_ctx_count() + 1
    &&& m1.parent_of(child) == (if o.spec_ctxs().is_empty() { Ctx::Nothing } else { ctx })
    &&& m1.scope_of(child) == (match c {
        Compound::Parens(_) => Scope::Sequence,
        Compound::Braces(_) => Scope::Stack,
        Compound::Brackets(_) => Scope::Unordered,
        Compound::Ratio(_) => Scope::Nothing,
    })
    &&& m1.same_reader(&o)
    &&& depth > 0
    &&& list_composed(m1, m2, compound_exps(view_compound(c)), ss, ms, child, (depth - 1) as usize)
    &&& n.spec_ctx_count() == m2.spec_ctx_count()
    &&& n.same_reader(&m2)
}

/// The context that the next `append_child` makes.
pub open spec fn next_ctx(s: State) -> Ctx {
    if s.spec_ctxs().is_empty() {
        Ctx::Root
    } else {
        Ctx::Id(s.spec_ctx_count() as usize)
    }
}

/// An empty group composes in `ctx`: there is depth and room for one more
/// context, no action is pending or queued for `ctx` or for the new context,
/// the new context has no children yet, and reading can resume.
pub open spec fn empty_group_fits(s: State, ctx: Ctx, compound: Compound, depth: usize) -> bool {
    &&& depth > 0
    &&& s.spec_ctx_count() < usize::MAX
    &&& compound_exps(view_compound(compound)).len() == 0
    &&& s.spec_thunk_stack().len() == 0
    &&& event_thunks(s.spec_thunks(), ctx, LifeCycleEvent::Composing).len() == 0
    &&& event_thunks(s.spec_thunks(), next_ctx(s), LifeCycleEvent::Composing).len() == 0
    &&& event_thunks(s.spec_thunks(), next_ctx(s), LifeCycleEvent::Sequencing).len() == 0
    &&& s.children_of(next_ctx(s)).len() == 0
    &&& s.spec_peeked().len() <= s.spec_index()
    &&& resume_index(s) < usize::MAX
}

/// Composes a group in a new child of `ctx` with the group's scope: the
/// actions queued for `ctx` run in the child first, then the group's
/// expressions are composed in it. A child with no children of its own runs
/// its actions, and its notes move up into `ctx` when `ctx` is a sequence
/// holding a sequence or a stack, or a stack holding a stack; otherwise each
/// of its children, then the child, runs its actions.
pub fn compose_compound(compound: Compound, ctx: Ctx, state: &mut State, depth: usize) -> (r: Result<
    (Exp, Ctx),
    ComposeError,
>)
    requires
        composable(*old(state), ctx),
    ensures
        wf_grown(*old(state), *final(state)),
        r matches Ok((e, c)) ==> c == ctx && old(state).spec_ctx_count() < final(state).spec_ctx_count(),
        (depth == 0 || old(state).spec_ctx_count() == usize::MAX) ==> (r matches Err(ComposeError::Exhausted)),
        empty_group_fits(*old(state), ctx, compound, depth) ==> r is Ok && final(state).children_of(next_ctx(*old(state))).len() == 0,
        r matches Ok((e, _)) ==> resumed_after(*old(state), *final(state), e@),
        r is Ok ==> exists|m1: State, m2: State, ss: Seq<State>, ms: Seq<Exp>| #[trigger] group_composed(
            *old(state),
            m1,
            m2,
            *final(state),
            compound,
            ctx,
            ss,
            ms,
            depth,
        ),
    decreases depth, 0nat,
{
    if depth == 0 || state.ctx_count() == usize::MAX {
        return Err(ComposeError::Exhausted);
    }
    let ghost o = *state;
    let ghost g = empty_group_fits(o, ctx, compound, depth);
    let ghost count0 = state.spec_ctx_count();
    let child = state.append_child(ctx);
    proof {
        assert(child == next_ctx(o));
        if g {
            assert(o.spec_thunk_stack().len() == 0);
            assert(state.spec_thunks() == o.spec_thunks());
        }
    }
    state.set_scope(child, compound.scope());
    let exps = compound.to_vecdeque();
    proof {
        lemma_view_exps_len(exps@);
    }
    if !thunks_fit(state, ctx, child, LifeCycleEvent::Composing) {
        return Err(ComposeError::Unsupported);
    }
    let ghost before_thunks = *state;
    state.compose_thunks(ctx, child);
    let ghost before_compose = *state;
    let ghost group = view_exps(exps@);
    let (e, _) = compose(child, exps, state, depth - 1)?;
    let ghost after_compose = *state;
    let ghost (gss, gms) = choose|ss: Seq<State>, ms: Seq<Exp>| #[trigger] list_composed(before_compose, after_compose, group, ss, ms, child, (depth - 1) as usize);
    proof {
        assert(resumed_after(o, after_compose, e@));
        if g {
            crate::compiler::codegen::state::lemma_ctx_key_injective(ctx, child);
            crate::compiler::codegen::state::lemma_ctx_key_injective(Ctx::Nothing, child);
            assert(state.children_of(child) == o.children_of(child));
        }
    }
    let is_id = match child {
        Ctx::Id(n) => n >= 1,
        _ => false,
    };
    if is_id {
        proof {
            assert(child == Ctx::Id(count0 as usize));
            assert(rank(ctx) < rank(child));
            crate::compiler::codegen::state::lemma_ctx_key_injective(ctx, child);
            if g {
                assert(state.same_tree(&before_compose) && state.same_rest(&before_compose));
                assert(state.children_of(child) == o.children_of(child));
                assert(event_thunks(state.spec_thunks(), child, LifeCycleEvent::Composing) == event_thunks(o.spec_thunks(), child, LifeCycleEvent::Composing));
                assert(event_thunks(state.spec_thunks(), child, LifeCycleEvent::Sequencing) == event_thunks(o.spec_thunks(), child, LifeCycleEvent::Sequencing));
            }
        }
        let children = state.children(child);
        if children.len() == 0 {
            if !thunks_fit(state, child, child, LifeCycleEvent::Composing) {
                return Err(ComposeError::Unsupported);
            }
            state.compose_thunks(child, child);
            if !thunks_fit(state, child, child, LifeCycleEvent::Sequencing) {
                return Err(ComposeError::Unsupported);
            }
            state.call_thunks(child, LifeCycleEvent::Sequencing);
            let outer = state.scope(ctx);
            let inner = state.scope(child);
            if (outer == Scope::Sequence && (inner == Scope::Sequence || inner == Scope::Stack)) || (outer
                == Scope::Stack && inner == Scope::Stack) {
                state.hoist(child, ctx);
                state.drop(child);
                proof {
                    assert(state.children_of(child).len() == 0);
                }
            }
        } else {
            proof {
                assert(!g);
            }
            let mut i: usize = 0;
            while i < children.len()
                invariant
                    !g,
                    g == empty_group_fits(*old(state), ctx, compound, depth),
                    state.same_reader(&after_compose),
                    state.spec_ctx_count() == after_compose.spec_ctx_count(),
                    i <= children@.len(),
                    state.wf(),
                    count0 < state.spec_ctx_count(),
                    count0 == old(state).spec_ctx_count(),
                    count0 < usize::MAX,
                    depth > 0,
                decreases children@.len() - i,
            {
                let c = children[i];
                if !thunks_fit(state, c, c, LifeCycleEvent::Composing) {
                    return Err(ComposeError::Unsupported);
                }
                state.compose_thunks(c, c);
                if !thunks_fit(state, c, c, LifeCycleEvent::Sequencing) {
                    return Err(ComposeError::Unsupported);
                }
                state.call_thunks(c, LifeCycleEvent::Sequencing);
                i = i + 1;
            }
            if !thunks_fit(state, child, child, LifeCycleEvent::Composing) {
                return Err(ComposeError::Unsupported);
            }
            state.compose_thunks(child, child);
            if !thunks_fit(state, child, child, LifeCycleEvent::Sequencing) {
                return Err(ComposeError::Unsupported);
            }
            state.call_thunks(child, LifeCycleEvent::Sequencing);
        }
    }
    proof {
        if g {
            assert(state.children_of(next_ctx(o)).len() == 0);
        }
        let child0 = next_ctx(o);
        assert(before_compose.spec_ctx_count() == o.spec_ctx_count() + 1);
        assert(before_compose.parent_of(child0) == (if o.spec_ctxs().is_empty() { Ctx::Nothing } else { ctx }));
        assert(before_compose.same_reader(&o));
        assert(group == compound_exps(view_compound(compound)));
        assert(list_composed(before_compose, after_compose, compound_exps(view_compound(compound)), gss, gms, child0, (depth - 1) as usize));
        assert(state.spec_ctx_count() == after_compose.spec_ctx_count());
        assert(state.same_reader(&after_compose));
        assert(group_composed(o, before_compose, after_compose, *state, compound, ctx, gss, gms, depth));
    }
    Ok((e, ctx))
}

/// Lays out `ctxs`, the children of one context, and everything under them
/// on the timeline. Under a sequence, a sequence lays out each of its
/// children after its own children, and a stack lays out its children (or
/// itself, when it has none) side by side; under a stack, each child lays
/// out what is under it and then its children, each on its own (below a
/// sequence) or side by side (below a stack). Under any other context nothing
/// happens.
pub fn sequence(state: &mut State, ctxs: Vec<Ctx>) -> (r: Result<(), ComposeError>)
    requires
        old(state).wf(),
    ensures
        final(state).wf(),
        final(state).same_reader(old(state)),
        final(state).spec_ctx_count() == old(state).spec_ctx_count(),
        final(state).spec_scopes() == old(state).spec_scopes(),
        ctxs@.len() == 0 ==> *final(state) == *old(state) && r is Ok,
        !playable(*old(state), old(state).parent_of(if ctxs@.len() > 0 { ctxs@[0] } else { Ctx::Nothing }))
            ==> *final(state) == *old(state) && r is Ok,
        r is Err ==> (r matches Err(ComposeError::Sequencing)),
        tree_shrunk(*old(state), *final(state)),
        r is Ok ==> forall|i: int|
            0 <= i < ctxs@.len() && old(state).children_of(ctxs@[i]).len() == 0 && old(state).scope_of(ctxs@[i]) == Scope::Stack
                && old(state).scope_of(old(state).parent_of(ctxs@[0])) == Scope::Sequence ==> !final(state).spec_ctxs().contains(
                ctx_key(#[trigger] ctxs@[i]),
            ),
        (forall|i: int| 0 <= i < ctxs@.len() ==> old(state).children_of(#[trigger] ctxs@[i]).len() == 0 && !(old(state).scope_of(
            old(state).parent_of(ctxs@[0]),
        ) == Scope::Sequence && old(state).scope_of(ctxs@[i]) == Scope::Stack)) ==> *final(state) == *old(state) && r is Ok,
        ctxs@.len() == 1 && old(state).children_of(ctxs@[0]).len() == 0 && old(state).scope_of(old(state).parent_of(ctxs@[0]))
            == Scope::Sequence && old(state).scope_of(ctxs@[0]) == Scope::Stack && voices_fit(*old(state), ctxs@) ==> r is Ok,
{
    sequence_below(state, ctxs, Ghost(-1))
}

/// `sequence`, on contexts that all rank above `floor`.
fn sequence_below(state: &mut State, ctxs: Vec<Ctx>, Ghost(floor): Ghost<int>) -> (r: Result<(), ComposeError>)
    requires
        old(state).wf(),
        -1 <= floor,
        forall|i: int| 0 <= i < ctxs@.len() ==> rank(#[trigger] ctxs@[i]) > floor,
    ensures
        final(state).wf(),
        final(state).same_reader(old(state)),
        final(state).spec_ctx_count() == old(state).spec_ctx_count(),
        final(state).spec_scopes() == old(state).spec_scopes(),
        ctxs@.len() == 0 ==> *final(state) == *old(state) && r is Ok,
        !playable(*old(state), old(state).parent_of(if ctxs@.len() > 0 { ctxs@[0] } else { Ctx::Nothing }))
            ==> *final(state) == *old(state) && r is Ok,
        r is Err ==> (r matches Err(ComposeError::Sequencing)),
        tree_shrunk(*old(state), *final(state)),
        r is Ok ==> forall|i: int|
            0 <= i < ctxs@.len() && old(state).children_of(ctxs@[i]).len() == 0 && old(state).scope_of(ctxs@[i]) == Scope::Stack
                && old(state).scope_of(old(state).parent_of(ctxs@[0])) == Scope::Sequence ==> !final(state).spec_ctxs().contains(
                ctx_key(#[trigger] ctxs@[i]),
            ),
        (forall|i: int| 0 <= i < ctxs@.len() ==> old(state).children_of(#[trigger] ctxs@[i]).len() == 0 && !(old(state).scope_of(
            old(state).parent_of(ctxs@[0]),
        ) == Scope::Sequence && old(state).scope_of(ctxs@[i]) == Scope::Stack)) ==> *final(state) == *old(state) && r is Ok,
        ctxs@.len() == 1 && old(state).children_of(ctxs@[0]).len() == 0 && old(state).scope_of(old(state).parent_of(ctxs@[0]))
            == Scope::Sequence && old(state).scope_of(ctxs@[0]) == Scope::Stack && voices_fit(*old(state), ctxs@) ==> r is Ok,
    decreases usize::MAX + 2 - floor,
{
    proof {
        lemma_tree_shrunk_refl(*state);
    }
    if ctxs.len() == 0 {
        return Ok(());
    }
    let parent = state.parent(ctxs[0]);
    let outer = state.scope(parent);
    if outer != Scope::Sequence && outer != Scope::Stack {
        return Ok(());
    }
    let ghost c1 = forall|j: int| 0 <= j < ctxs@.len() ==> old(state).children_of(#[trigger] ctxs@[j]).len() == 0 && !(outer
        == Scope::Sequence && old(state).scope_of(ctxs@[j]) == Scope::Stack);
    let ghost c2 = ctxs@.len() == 1 && old(state).children_of(ctxs@[0]).len() == 0 && outer == Scope::Sequence
        && old(state).scope_of(ctxs@[0]) == Scope::Stack && voices_fit(*old(state), ctxs@);
    let mut i: usize = 0;
    while i < ctxs.len()
        invariant
            i <= ctxs@.len(),
            state.wf(),
            -1 <= floor,
            forall|j: int| 0 <= j < ctxs@.len() ==> rank(#[trigger] ctxs@[j]) > floor,
            state.same_reader(old(state)),
            state.spec_ctx_count() == old(state).spec_ctx_count(),
            state.spec_scopes() == old(state).spec_scopes(),
            outer == Scope::Sequence || outer == Scope::Stack,
            ctxs@.len() > 0,
            playable(*old(state), old(state).parent_of(ctxs@[0])),
            outer == old(state).scope_of(old(state).parent_of(ctxs@[0])),
            tree_shrunk(*old(state), *state),
            forall|j: int|
                0 <= j < i && old(state).children_of(ctxs@[j]).len() == 0 && old(state).scope_of(ctxs@[j]) == Scope::Stack
                    && outer == Scope::Sequence ==> !state.spec_ctxs().contains(ctx_key(#[trigger] ctxs@[j])),
            c1 == (forall|j: int| 0 <= j < ctxs@.len() ==> old(state).children_of(#[trigger] ctxs@[j]).len() == 0 && !(outer
                == Scope::Sequence && old(state).scope_of(ctxs@[j]) == Scope::Stack)),
            c2 == (ctxs@.len() == 1 && old(state).children_of(ctxs@[0]).len() == 0 && outer == Scope::Sequence
                && old(state).scope_of(ctxs@[0]) == Scope::Stack && voices_fit(*old(state), ctxs@)),
            c1 ==> *state == *old(state),
            i == 0 ==> *state == *old(state),
        decreases ctxs@.len() - i,
    {
        let ghost at_start = *state;
        let ctx = ctxs[i];
        assert(rank(ctx) > floor);
        assert(rank(ctx) <= usize::MAX + 1);
        let children = state.children(ctx);
        let inner = state.scope(ctx);
        if children.len() > 0 && (inner == Scope::Sequence || inner == Scope::Stack) {
            proof {
                if c1 {
                    assert(old(state).children_of(ctxs@[i as int]).len() == 0);
                }
                if c2 {
                    assert(old(state).children_of(ctxs@[0]).len() == 0);
                }
                assert(!c1 && !c2);
            }
            if outer == Scope::Sequence && inner == Scope::Sequence {
                let mut k: usize = 0;
                while k < children.len()
                    invariant
                        k <= children@.len(),
                        state.wf(),
                        forall|j: int| 0 <= j < children@.len() ==> rank(#[trigger] children@[j]) > rank(ctx),
                        rank(ctx) > floor,
                        -1 <= floor,
                        rank(ctx) <= usize::MAX + 1,
                        state.same_reader(old(state)),
                        state.spec_ctx_count() == old(state).spec_ctx_count(),
                        state.spec_scopes() == old(state).spec_scopes(),
                        ctxs@.len() > 0,
                        playable(*old(state), old(state).parent_of(ctxs@[0])),
                        tree_shrunk(at_start, *state),
                        tree_shrunk(*old(state), at_start),
                        !c1 && !c2,
                        c1 == (forall|j: int| 0 <= j < ctxs@.len() ==> old(state).children_of(#[trigger] ctxs@[j]).len() == 0 && !(outer
                            == Scope::Sequence && old(state).scope_of(ctxs@[j]) == Scope::Stack)),
                        c2 == (ctxs@.len() == 1 && old(state).children_of(ctxs@[0]).len() == 0 && outer == Scope::Sequence
                            && old(state).scope_of(ctxs@[0]) == Scope::Stack && voices_fit(*old(state), ctxs@)),
                        outer == old(state).scope_of(old(state).parent_of(ctxs@[0])),
                    decreases children@.len() - k,
                {
                    let c = children[k];
                    let one = vec![c];
                    assert(rank(one@[0]) > rank(ctx));
                    let ghost s0 = *state;
                    let below = sequence_below(state, one, Ghost(rank(ctx)));
                    proof {
                        lemma_tree_shrunk_trans(at_start, s0, *state);
                        lemma_tree_shrunk_trans(*old(state), at_start, *state);
                    }
                    below?;
                    let ghost s1 = *state;
                    let combined = state.combine_sequences(vec![c]);
                    proof {
                        lemma_tree_shrunk_trans(at_start, s1, *state);
                        lemma_tree_shrunk_trans(*old(state), at_start, *state);
                    }
                    if !combined {
                        return Err(ComposeError::Sequencing);
                    }
                    k = k + 1;
                }
            } else {
                let below = children.clone();
                let ghost s0 = *state;
                let done = sequence_below(state, below, Ghost(rank(ctx)));
                proof {
                    lemma_tree_shrunk_trans(at_start, s0, *state);
                    lemma_tree_shrunk_trans(*old(state), at_start, *state);
                }
                done?;
                if inner == Scope::Stack {
                    let ghost s1 = *state;
                    let combined = state.combine_sequences(children);
                    proof {
                        lemma_tree_shrunk_trans(at_start, s1, *state);
                        lemma_tree_shrunk_trans(*old(state), at_start, *state);
                    }
                    if !combined {
                        return Err(ComposeError::Sequencing);
                    }
                } else {
                    let mut k: usize = 0;
                    while k < children.len()
                        invariant
                            k <= children@.len(),
                            state.wf(),
                            state.same_reader(old(state)),
                            state.spec_ctx_count() == old(state).spec_ctx_count(),
                            state.spec_scopes() == old(state).spec_scopes(),
                            ctxs@.len() > 0,
                            playable(*old(state), old(state).parent_of(ctxs@[0])),
                            tree_shrunk(at_start, *state),
                            tree_shrunk(*old(state), at_start),
                        tree_shrunk(*old(state), at_start),
                            !c1 && !c2,
                            c1 == (forall|j: int| 0 <= j < ctxs@.len() ==> old(state).children_of(#[trigger] ctxs@[j]).len() == 0 && !(outer
                                == Scope::Sequence && old(state).scope_of(ctxs@[j]) == Scope::Stack)),
                            c2 == (ctxs@.len() == 1 && old(state).children_of(ctxs@[0]).len() == 0 && outer == Scope::Sequence
                                && old(state).scope_of(ctxs@[0]) == Scope::Stack && voices_fit(*old(state), ctxs@)),
                            outer == old(state).scope_of(old(state).parent_of(ctxs@[0])),
                        c1 == (forall|j: int| 0 <= j < ctxs@.len() ==> old(state).children_of(#[trigger] ctxs@[j]).len() == 0 && !(outer
                            == Scope::Sequence && old(state).scope_of(ctxs@[j]) == Scope::Stack)),
                        c2 == (ctxs@.len() == 1 && old(state).children_of(ctxs@[0]).len() == 0 && outer == Scope::Sequence
                            && old(state).scope_of(ctxs@[0]) == Scope::Stack && voices_fit(*old(state), ctxs@)),
                        outer == old(state).scope_of(old(state).parent_of(ctxs@[0])),
                        decreases children@.len() - k,
                    {
                        let ghost s1 = *state;
                        let combined = state.combine_sequences(vec![children[k]]);
                        proof {
                            lemma_tree_shrunk_trans(at_start, s1, *state);
                            lemma_tree_shrunk_trans(*old(state), at_start, *state);
                        }
                        if !combined {
                            return Err(ComposeError::Sequencing);
                        }
                        k = k + 1;
                    }
                }
            }
        } else if children.len() == 0 && outer == Scope::Sequence && inner == Scope::Stack {
            let one = vec![ctx];
            let combined = state.combine_sequences(one);
            proof {
                lemma_tree_shrunk_trans(*old(state), at_start, *state);
            }
            if !combined {
                return Err(ComposeError::Sequencing);
            }
        } else {
            proof {
                lemma_tree_shrunk_refl(*state);
            }
        }
        proof {
            lemma_tree_shrunk_trans(*old(state), at_start, *state);
            assert forall|j: int|
                0 <= j < i + 1 && old(state).children_of(ctxs@[j]).len() == 0 && old(state).scope_of(ctxs@[j]) == Scope::Stack
                    && outer == Scope::Sequence implies !state.spec_ctxs().contains(ctx_key(#[trigger] ctxs@[j])) by {
                if j < i {
                    assert(!at_start.spec_ctxs().contains(ctx_key(ctxs@[j])));
                } else {
                    assert(at_start.children_of(ctx).len() == 0);
                }
            }
        }
        i = i + 1;
    }
    Ok(())
}

/// `s` is an empty state as `State::new` makes it.
pub open spec fn fresh(s: State) -> bool {
    &&& s.wf()
    &&& s.spec_index() == 1
    &&& s.spec_exps().len() == 0
    &&& s.spec_ctx_count() == 0
    &&& s.spec_ctxs().is_empty()
    &&& s.spec_parents().is_empty()
    &&& s.spec_children().is_empty()
    &&& s.spec_thunks().is_empty()
    &&& s.spec_scopes() == map![ctx_key(Ctx::Root) => Scope::Sequence]
    &&& s.spec_tables() == (Tables {
        pcs: Map::empty(),
        lengths: Map::empty(),
        velocities: Map::empty(),
        tempos: Map::empty(),
        registers: Map::empty(),
        programs: Map::empty(),
    })
    &&& s.spec_tempo() == Mpb::default_spec()
    &&& s.spec_playhead() == Length::MicroSeconds(Fraction { numer: 0, denom: 1 })
    &&& s.spec_stack().len() == 0
    &&& s.spec_peeked().len() == 0
    &&& s.spec_thunk_stack().len() == 0
    &&& s.spec_timeline().len() == 0
    &&& s.spec_instruments().is_empty()
    &&& s.spec_bindings().is_empty()
    &&& s.spec_velocity() is None
}

/// What composing `program` does: from an empty state `o`, the program's
/// expressions are composed as one sequence group under no context, giving
/// `m` (`list_composed`); then the children of the root are laid out on the
/// timeline (`sequence`), giving `n`, which only shrinks the tree and keeps
/// the contexts made, their scopes and the reading.
pub open spec fn program_composed(o: State, m: State, n: State, program: Program, ss: Seq<State>, ms: Seq<Exp>) -> bool {
    &&& fresh(o)
    &&& list_composed(o, m, view_exps(seq![Exp::Compound(Compound::Parens(program.exps))]), ss, ms, Ctx::Nothing, MAX_DEPTH)
    &&& n.wf()
    &&& tree_shrunk(m, n)
    &&& n.same_reader(&m)
    &&& n.spec_ctx_count() == m.spec_ctx_count()
    &&& n.spec_scopes() == m.spec_scopes()
}

/// Composes a program: its expressions are composed as one sequence under
/// the root, and the root's children are then laid out on the timeline.
pub fn compose_program(program: Program) -> (r: Result<State, ComposeError>)
    ensures
        r matches Ok(s) ==> s.wf() && timeline_sorted(s.spec_timeline()),
        program.exps@.len() == 0 ==> r is Ok,
        r matches Ok(s) ==> exists|o: State, m: State, ss: Seq<State>, ms: Seq<Exp>| #[trigger] program_composed(o, m, s, program, ss, ms),
{
    let mut state = State::new();
    let ghost s0 = state;
    proof {
        assert(s0.spec_pcs() =~= Map::empty());
        assert(s0.spec_lengths() =~= Map::empty());
        assert(s0.spec_velocities() =~= Map::empty());
        assert(s0.spec_tempos() =~= Map::empty());
        assert(s0.spec_registers() =~= Map::empty());
        assert(s0.spec_programs() =~= Map::empty());
        assert(fresh(s0));
    }
    let ghost group = Compound::Parens(program.exps);
    proof {
        lemma_view_exps_len(program.exps@);
        assert(next_ctx(s0) == Ctx::Root);
        if program.exps@.len() == 0 {
            assert(empty_group_fits(s0, Ctx::Nothing, group, MAX_DEPTH));
        }
    }
    let top = vec![Exp::Compound(Compound::Parens(program.exps))];
    let ghost top_v = view_exps(top@);
    proof {
        assert(top@ == seq![Exp::Compound(group)]);
    }
    compose(Ctx::Nothing, top, &mut state, MAX_DEPTH)?;
    let ghost m = state;
    let ghost (pss, pms) = choose|ss: Seq<State>, ms: Seq<Exp>| #[trigger] list_composed(s0, m, top_v, ss, ms, Ctx::Nothing, MAX_DEPTH);
    let children = state.children(Ctx::Root);
    sequence(&mut state, children)?;
    proof {
        crate::compiler::codegen::state::law_timeline_sorted(state);
        assert(program_composed(s0, m, state, program, pss, pms));
    }
    let r = Ok(state);
    proof {
        assert(r matches Ok(s) && program_composed(s0, m, s, program, pss, pms));
    }
    r
}

/// What is pushed back is read next.
pub proof fn law_pushed_back_read_next(o: State, n: State, e: ExpV)
    requires
        n.spec_peeked() == o.spec_peeked().push(e),
    ensures
        readable(n),
        upcoming(n) == Some(e),
{
}

/// What is stored is what a suffix finds stored.
pub proof fn law_stored_found(o: State, n: State, e: ExpV)
    requires
        n.spec_stack() == o.spec_stack().push(e),
    ensures
        stored(n) == Some(e),
{
}

/// Reducing a fraction keeps its value: `reduced(x, y)` has a nonzero
/// denominator and stands for `x / y`.
pub proof fn lemma_reduced_same(x: nat, y: nat)
    requires
        y > 0,
        x <= u64::MAX,
        y <= u64::MAX,
    ensures
        reduced(x, y).denom > 0,
        reduced(x, y).numer * y == x * reduced(x, y).denom,
{
    crate::compiler::codegen::utils::law_gcd_divides(x, y);
    let g = crate::compiler::codegen::utils::spec_gcd(x, y);
    vstd::arithmetic::div_mod::lemma_fundamental_div_mod(x as int, g as int);
    vstd::arithmetic::div_mod::lemma_fundamental_div_mod(y as int, g as int);
    let a = x as int / g as int;
    let b = y as int / g as int;
    assert(0 <= a <= x) by (nonlinear_arith)
        requires
            x == g * a,
            g > 0,
            x >= 0,
    ;
    assert(0 < b <= y) by (nonlinear_arith)
        requires
            y == g * b,
            g > 0,
            y > 0,
    ;
    assert(reduced(x, y).numer == a);
    assert(reduced(x, y).denom == b);
    assert(a * y == x * b) by (nonlinear_arith)
        requires
            x == g * a,
            y == g * b,
    ;
}

/// `d<n>` is the `n`th part of a whole note of four beats: at tempo `t`
/// (microseconds per quarter note), `n` of them last four beats.
pub proof fn law_fraction_of_whole_note(t: Mpb, n: u64)
    requires
        t.0.wf(),
        n > 0,
        fits(absolute_factors(t, Absolute::UInt(n))),
    ensures
        micros(absolute_factors(t, Absolute::UInt(n))).spec_ratio().denom > 0,
        micros(absolute_factors(t, Absolute::UInt(n))).spec_ratio().numer * n * t.0.denom == 4 * t.0.numer
            * micros(absolute_factors(t, Absolute::UInt(n))).spec_ratio().denom,
{
    let f = absolute_factors(t, Absolute::UInt(n));
    reveal_with_fuel(product, 4);
    let x = product(f.numer);
    let y = product(f.denom);
    assert(x == (t.0.numer as nat) * 4 * 1);
    assert(y == (t.0.denom as nat) * (n as nat));
    assert(y > 0) by (nonlinear_arith)
        requires
            y == (t.0.denom as nat) * (n as nat),
            t.0.denom > 0,
            n > 0,
    ;
    lemma_reduced_same(x, y);
    let r = reduced(x, y);
    assert(r.numer * n * t.0.denom == 4 * t.0.numer * r.denom) by (nonlinear_arith)
        requires
            r.numer * y == x * r.denom,
            x == (t.0.numer as nat) * 4 * 1,
            y == (t.0.denom as nat) * (n as nat),
    ;
}

/// Durations carry forward from left to right: in a sequence with no
/// duration waiting, a pitch lasts as long as the one before it (the first
/// length of the last row), when every earlier pitch has its length.
pub proof fn law_duration_carries_forward(o: State, n: State, ctx: Ctx, pc: Pc)
    requires
        noted(o, n, ctx, pc),
        ctx != Ctx::Nothing,
        o.scope_of(ctx) == Scope::Sequence,
        event_thunks(o.spec_thunks(), ctx, LifeCycleEvent::Composing).len() == 0,
        o.spec_lengths().contains_key(ctx_key(ctx)),
        o.spec_lengths()[ctx_key(ctx)].len() > 0,
        o.spec_lengths()[ctx_key(ctx)].last().len() > 0,
        rows_or_empty(o.spec_lengths(), ctx).len() == rows_or_empty(o.spec_pcs(), ctx).len(),
    ensures
        n.spec_lengths() == o.spec_lengths().insert(
            ctx_key(ctx),
            o.spec_lengths()[ctx_key(ctx)].push(seq![o.spec_lengths()[ctx_key(ctx)].last()[0]]),
        ),
{
    let scope = o.scope_of(ctx);
    let t0 = param_added(o.spec_tables(), ctx, Param::Pc(pc), scope);
    assert(zigzag(event_thunks(o.spec_thunks(), ctx, LifeCycleEvent::Composing)) =~= Seq::<Thunk>::empty());
    assert(thunks_applied(t0, ctx, Seq::<Thunk>::empty(), scope) == t0);
    let t = note_tables(o, ctx, pc);
    assert(t == t0);
    assert(t.lengths == o.spec_lengths());
    let rows = o.spec_lengths()[ctx_key(ctx)];
    assert(rows_or_empty(n.spec_pcs(), ctx) == rows_or_empty(o.spec_pcs(), ctx).push(seq![pc]));
    assert(pad_need(n.spec_pcs(), t.lengths, ctx) == 1);
    assert(n.found_row(t.lengths, ctx) == Some(rows.last()));
    assert(n.scope_of(ctx) == Scope::Sequence);
    let got = n.got(t.lengths, ctx, Length::MicroSeconds(Fraction { numer: 0, denom: 1 }));
    assert(got == rows.last());
    assert(cycled(got, 1) =~= seq![rows.last()[0]]);
}

} // verus!
