//! The context arena that the composer fills and the sequencing pass reads.
use crate::compiler::ast::{clone_exp, view_exp, view_exps, Exp, ExpV, Ident, Scalar, Simple};
use crate::compiler::codegen::utils::flatten;
use crate::compiler::codegen::arena::{
    event_key, ident_key, copy_row, copy_rows, ctx_key, get_rows, push_row, push_row_if_present, remove_rows, rows,
    rows_or_empty, set_rows_if_present, table, take_rows, CtxMap, Key, KeyMap,
};
use crate::compiler::ast::Absolute;
use crate::compiler::codegen::fraction::{lemma_lt_le_trans, Fraction};
use crate::compiler::codegen::{
    ctx_eq,
    floor_128_spec, tempo_computable, Ctx, Layer, LifeCycleEvent, Length, Mpb, Pc, Prog, Register, Scope, Slice, Tempo, Velocity,
};
use vstd::prelude::*;

verus! {

/// The depth order of contexts: a child always ranks above its parent.
pub open spec fn rank(c: Ctx) -> int {
    match c {
        Ctx::Nothing => 0,
        Ctx::Root => 1,
        Ctx::Id(n) => n + 1,
    }
}

/// What the recursion over the context tree decreases.
pub open spec fn depth_left(c: Ctx) -> nat {
    (usize::MAX + 2 - rank(c)) as nat
}

/// The state of composition: the expressions being read, and the arena of
/// contexts with the parameters that each holds.
#[derive(Debug)]
pub struct State {
    index_: usize,
    stack_indexes: Vec<usize>,
    peeked: Vec<Exp>,
    exps: Vec<Exp>,
    ctx_count: usize,
    ctxs: CtxMap<()>,
    parents: CtxMap<Ctx>,
    children: CtxMap<Vec<Ctx>>,
    scopes: CtxMap<Scope>,
    layers: CtxMap<Layer>,
    programs_: CtxMap<Vec<Vec<Prog>>>,
    registers_: CtxMap<Vec<Vec<Register>>>,
    pcs_: CtxMap<Vec<Vec<Pc>>>,
    lengths_: CtxMap<Vec<Vec<Length>>>,
    velocity: Option<Vec<Velocity>>,
    velocities_: CtxMap<Vec<Vec<Velocity>>>,
    tempo: Mpb,
    tempos_: CtxMap<Vec<Vec<Mpb>>>,
    bindings: CtxMap<KeyMap<Ident, Exp>>,
    instruments: KeyMap<Prog, Vec<u8>>,
    timeline_: Vec<(Length, Vec<Slice>)>,
    playhead: Length,
    stack: Vec<Exp>,
    thunks: CtxMap<KeyMap<LifeCycleEvent, Vec<Thunk>>>,
    thunk_stack: Vec<(LifeCycleEvent, Thunk)>,
}

/// A deferred change to the parameters of a context.
#[derive(Debug, Clone, Copy)]
pub enum Thunk {
    /// Add one value the way `State::add` adds a column.
    Add(Param),
    /// Put the length in place of the last length of the context, or add it
    /// when there is none.
    ReplaceLastLength(Length),
}

/// A single value of one of the six parameters.
#[derive(Debug, Clone, Copy)]
pub enum Param {
    Pc(Pc),
    Length(Length),
    Velocity(Velocity),
    Tempo(Mpb),
    Register(Register),
    Program(Prog),
}

/// The children of `c` in a children map, or none.
pub open spec fn children_or_empty(m: Map<Seq<int>, Seq<Ctx>>, c: Ctx) -> Seq<Ctx> {
    if m.contains_key(ctx_key(c)) {
        m[ctx_key(c)]
    } else {
        Seq::empty()
    }
}

/// A map of maps whose every map has distinct keys.
pub open spec fn nested_wf<K: Key, V>(m: CtxMap<KeyMap<K, V>>) -> bool {
    &&& m.inv()
    &&& forall|k: Seq<int>| #[trigger] m@.contains_key(k) ==> m@[k].inv()
}

/// Every child ranks above the context it is listed under, and every parent
/// below its child.
pub open spec fn ranked(children: Map<Seq<int>, Seq<Ctx>>, parents: Map<Seq<int>, Ctx>) -> bool {
    &&& forall|p: Ctx, i: int|
        0 <= i < children_or_empty(children, p).len() ==> rank(
            #[trigger] children_or_empty(children, p)[i],
        ) > rank(p)
    &&& forall|c: Ctx| #[trigger]
        parents.contains_key(ctx_key(c)) ==> rank(parents[ctx_key(c)]) < rank(c)
}

/// The index of a context: its number, 0 for the others.
pub open spec fn ctx_index(c: Ctx) -> int {
    match c {
        Ctx::Id(n) => n as int,
        _ => 0,
    }
}

/// The contexts of `s` whose index is not `n`, in order.
pub open spec fn without_index(s: Seq<Ctx>, n: int) -> Seq<Ctx>
    decreases s.len(),
{
    if s.len() == 0 {
        s
    } else {
        let rest = without_index(s.drop_last(), n);
        if ctx_index(s.last()) != n {
            rest.push(s.last())
        } else {
            rest
        }
    }
}

/// The children `l` of a context after `move_child` has moved each of `cs`
/// under it, first to last: each drops the contexts numbered like it and then
/// goes last.
pub open spec fn moved_into(l: Seq<Ctx>, cs: Seq<Ctx>) -> Seq<Ctx>
    decreases cs.len(),
{
    if cs.len() == 0 {
        l
    } else {
        without_index(moved_into(l, cs.drop_last()), ctx_index(cs.last())).push(cs.last())
    }
}

/// The contexts of `l` whose index is none of those of `cs`, in order.
pub open spec fn without_indices(l: Seq<Ctx>, cs: Seq<Ctx>) -> Seq<Ctx>
    decreases cs.len(),
{
    if cs.len() == 0 {
        l
    } else {
        without_index(without_indices(l, cs.drop_last()), ctx_index(cs.last()))
    }
}

/// The deferred actions of one context, by event.
pub open spec fn thunks_or_empty(
    m: Map<Seq<int>, Map<Seq<int>, Seq<Thunk>>>,
    c: Ctx,
) -> Map<Seq<int>, Seq<Thunk>> {
    if m.contains_key(ctx_key(c)) {
        m[ctx_key(c)]
    } else {
        Map::empty()
    }
}

/// The deferred actions of one context for one event.
pub open spec fn event_thunks(m: Map<Seq<int>, Map<Seq<int>, Seq<Thunk>>>, c: Ctx, e: LifeCycleEvent) -> Seq<Thunk> {
    let t = thunks_or_empty(m, c);
    if t.contains_key(event_key(e)) {
        t[event_key(e)]
    } else {
        Seq::empty()
    }
}

/// `thunk` added last to the actions of `c` for `e`.
pub open spec fn with_thunk(
    m: Map<Seq<int>, Map<Seq<int>, Seq<Thunk>>>,
    c: Ctx,
    e: LifeCycleEvent,
    thunk: Thunk,
) -> Map<Seq<int>, Map<Seq<int>, Seq<Thunk>>> {
    m.insert(ctx_key(c), thunks_or_empty(m, c).insert(event_key(e), event_thunks(m, c, e).push(thunk)))
}

/// The pending actions, taken from the last, each added to `c`.
pub open spec fn drain_thunks(
    m: Map<Seq<int>, Map<Seq<int>, Seq<Thunk>>>,
    c: Ctx,
    pending: Seq<(LifeCycleEvent, Thunk)>,
) -> Map<Seq<int>, Map<Seq<int>, Seq<Thunk>>>
    decreases pending.len(),
{
    if pending.len() == 0 {
        m
    } else {
        drain_thunks(with_thunk(m, c, pending.last().0, pending.last().1), c, pending.drop_last())
    }
}

/// The contexts of `s` that do not compare equal to `c`, in order.
pub open spec fn without_ctx(s: Seq<Ctx>, c: Ctx) -> Seq<Ctx>
    decreases s.len(),
{
    if s.len() == 0 {
        s
    } else {
        let rest = without_ctx(s.drop_last(), c);
        if !ctx_eq(s.last(), c) {
            rest.push(s.last())
        } else {
            rest
        }
    }
}

/// The rows of a table merged into one row; no rows stay no rows.
pub open spec fn flat_rows<T>(r: Seq<Seq<T>>) -> Seq<Seq<T>> {
    if r.len() == 0 {
        r
    } else {
        seq![r.flatten()]
    }
}

/// The rows of `c` in a table made empty, when `c` has rows.
pub open spec fn cleared<T>(m: Map<Seq<int>, Seq<Seq<T>>>, c: Ctx) -> Map<Seq<int>, Seq<Seq<T>>> {
    if m.contains_key(ctx_key(c)) {
        m.insert(ctx_key(c), Seq::empty())
    } else {
        m
    }
}

/// The rows of `c` in a table merged into one row, when `c` has rows.
pub open spec fn flattened<T>(m: Map<Seq<int>, Seq<Seq<T>>>, c: Ctx) -> Map<Seq<int>, Seq<Seq<T>>> {
    if m.contains_key(ctx_key(c)) {
        m.insert(ctx_key(c), flat_rows(m[ctx_key(c)]))
    } else {
        m
    }
}

/// The program number of an expression that is a program.
pub open spec fn program_of(e: Exp) -> Option<u8> {
    match e {
        Exp::Simple(Simple::Scalar(Scalar::Prog(p))) => Some(p.0),
        _ => None,
    }
}

/// One column of values of a single parameter.
#[derive(Debug)]
pub enum Column {
    Pc(Vec<Pc>),
    Length(Vec<Length>),
    Velocity(Vec<Velocity>),
    Tempo(Vec<Mpb>),
    Register(Vec<Register>),
    Program(Vec<Prog>),
}

/// Which parameter a column holds.
#[derive(Debug, Clone, Copy, PartialEq, Eq, Structural)]
pub enum ParamKind {
    Pc,
    Length,
    Velocity,
    Tempo,
    Register,
    Program,
}

impl Column {
    /// The parameter this column holds.
    pub open spec fn kind(&self) -> ParamKind {
        match self {
            Column::Pc(_) => ParamKind::Pc,
            Column::Length(_) => ParamKind::Length,
            Column::Velocity(_) => ParamKind::Velocity,
            Column::Tempo(_) => ParamKind::Tempo,
            Column::Register(_) => ParamKind::Register,
            Column::Program(_) => ParamKind::Program,
        }
    }

    pub open spec fn pcs(&self) -> Seq<Pc> {
        match self {
            Column::Pc(v) => v@,
            _ => Seq::empty(),
        }
    }

    pub open spec fn lengths(&self) -> Seq<Length> {
        match self {
            Column::Length(v) => v@,
            _ => Seq::empty(),
        }
    }

    pub open spec fn velocities(&self) -> Seq<Velocity> {
        match self {
            Column::Velocity(v) => v@,
            _ => Seq::empty(),
        }
    }

    pub open spec fn tempos(&self) -> Seq<Mpb> {
        match self {
            Column::Tempo(v) => v@,
            _ => Seq::empty(),
        }
    }

    pub open spec fn registers(&self) -> Seq<Register> {
        match self {
            Column::Register(v) => v@,
            _ => Seq::empty(),
        }
    }

    pub open spec fn programs(&self) -> Seq<Prog> {
        match self {
            Column::Program(v) => v@,
            _ => Seq::empty(),
        }
    }
}

/// Whole tables of a single parameter.
#[derive(Debug)]
pub enum Rows {
    Pc(Vec<Vec<Pc>>),
    Length(Vec<Vec<Length>>),
    Velocity(Vec<Vec<Velocity>>),
    Tempo(Vec<Vec<Mpb>>),
    Register(Vec<Vec<Register>>),
    Program(Vec<Vec<Prog>>),
}

impl Rows {
    pub open spec fn kind(&self) -> ParamKind {
        match self {
            Rows::Pc(_) => ParamKind::Pc,
            Rows::Length(_) => ParamKind::Length,
            Rows::Velocity(_) => ParamKind::Velocity,
            Rows::Tempo(_) => ParamKind::Tempo,
            Rows::Register(_) => ParamKind::Register,
            Rows::Program(_) => ParamKind::Program,
        }
    }

    pub open spec fn len(&self) -> nat {
        match self {
            Rows::Pc(v) => v@.len(),
            Rows::Length(v) => v@.len(),
            Rows::Velocity(v) => v@.len(),
            Rows::Tempo(v) => v@.len(),
            Rows::Register(v) => v@.len(),
            Rows::Program(v) => v@.len(),
        }
    }

    pub open spec fn pcs(&self) -> Seq<Seq<Pc>> {
        match self {
            Rows::Pc(v) => rows(*v),
            _ => Seq::empty(),
        }
    }

    pub open spec fn lengths(&self) -> Seq<Seq<Length>> {
        match self {
            Rows::Length(v) => rows(*v),
            _ => Seq::empty(),
        }
    }

    pub open spec fn velocities(&self) -> Seq<Seq<Velocity>> {
        match self {
            Rows::Velocity(v) => rows(*v),
            _ => Seq::empty(),
        }
    }

    pub open spec fn tempos(&self) -> Seq<Seq<Mpb>> {
        match self {
            Rows::Tempo(v) => rows(*v),
            _ => Seq::empty(),
        }
    }

    pub open spec fn registers(&self) -> Seq<Seq<Register>> {
        match self {
            Rows::Register(v) => rows(*v),
            _ => Seq::empty(),
        }
    }

    pub open spec fn programs(&self) -> Seq<Seq<Prog>> {
        match self {
            Rows::Program(v) => rows(*v),
            _ => Seq::empty(),
        }
    }
}

/// How many values `pad` adds to a table of `c`: the length of the last
/// pitch row beyond the length of the table's row at the same place.
pub open spec fn pad_need<T>(pcs: Map<Seq<int>, Seq<Seq<Pc>>>, m: Map<Seq<int>, Seq<Seq<T>>>, c: Ctx) -> int {
    let pr = rows_or_empty(pcs, c);
    let i = if pr.len() > 0 { pr.len() - 1 } else { 0 };
    let p_len = if i < pr.len() { pr[i].len() as int } else { 0 };
    let tr = rows_or_empty(m, c);
    let t_len = if i < tr.len() { tr[i].len() as int } else { 0 };
    p_len - t_len
}

/// The first `n` values of `v` repeated without end; nothing when `v` is empty.
pub open spec fn cycled<T>(v: Seq<T>, n: int) -> Seq<T> {
    if v.len() == 0 {
        Seq::empty()
    } else {
        Seq::new(n as nat, |i: int| v[i % (v.len() as int)])
    }
}

/// A table after `add` of the column `v` to `c` with scope `scope`.
pub open spec fn after_add<T>(m: Map<Seq<int>, Seq<Seq<T>>>, c: Ctx, v: Seq<T>, scope: Scope) -> Map<Seq<int>, Seq<Seq<T>>> {
    if scope == Scope::Sequence {
        row_added(m, c, v)
    } else {
        extended(m, c, seq![v])
    }
}

/// The tempo table after `add` of the column `v` to `c` with scope `scope`.
pub open spec fn after_add_tempos(m: Map<Seq<int>, Seq<Seq<Mpb>>>, c: Ctx, v: Seq<Mpb>, scope: Scope) -> Map<Seq<int>, Seq<Seq<Mpb>>> {
    if scope == Scope::Sequence {
        tempos_added(m, c, v)
    } else {
        extended(m, c, seq![v])
    }
}

/// `row` put at place `i` the way `hoist` puts it: the only row of an empty
/// table, in place of row `i`, or last.
pub open spec fn placed<T>(r: Seq<Seq<T>>, i: int, row: Seq<T>) -> Seq<Seq<T>> {
    if r.len() == 0 {
        seq![row]
    } else if 0 <= i < r.len() {
        r.update(i, row)
    } else {
        r.push(row)
    }
}

/// The first `n` rows of `src` placed from place `start` on.
pub open spec fn placed_all<T>(r: Seq<Seq<T>>, start: int, src: Seq<Seq<T>>, n: nat) -> Seq<Seq<T>>
    decreases n,
{
    if n == 0 {
        r
    } else {
        placed(placed_all(r, start, src, (n - 1) as nat), start + n - 1, src[n - 1])
    }
}

/// A table after `hoist` moved `n` rows of `from` into `to`.
pub open spec fn hoisted<T>(m: Map<Seq<int>, Seq<Seq<T>>>, from: Ctx, to: Ctx, start: int, n: nat) -> Map<Seq<int>, Seq<Seq<T>>> {
    let m1 = cleared(m, from);
    if m1.contains_key(ctx_key(to)) {
        m1.insert(ctx_key(to), placed_all(m1[ctx_key(to)], start, rows_or_empty(m, from), n))
    } else {
        m1
    }
}

/// A table with a row added to `c`, giving `c` rows when it had none.
pub open spec fn row_added<T>(m: Map<Seq<int>, Seq<Seq<T>>>, c: Ctx, v: Seq<T>) -> Map<Seq<int>, Seq<Seq<T>>> {
    m.insert(ctx_key(c), rows_or_empty(m, c).push(v))
}

/// Each row extended with the row of `ts` at the same place, as far as both go.
pub open spec fn zip_extended<T>(r: Seq<Seq<T>>, ts: Seq<Seq<T>>) -> Seq<Seq<T>> {
    Seq::new(r.len(), |i: int| if i < ts.len() { r[i] + ts[i] } else { r[i] })
}

/// The rows of `c` extended with `ts` the way `State::extend` does: rows
/// that are empty become `ts`; otherwise row `i` gets row `i` of `ts`
/// appended, and the number of rows stays the same.
pub open spec fn extended<T>(m: Map<Seq<int>, Seq<Seq<T>>>, c: Ctx, ts: Seq<Seq<T>>) -> Map<Seq<int>, Seq<Seq<T>>> {
    if m.contains_key(ctx_key(c)) {
        let r = m[ctx_key(c)];
        m.insert(
            ctx_key(c),
            if r.len() == 0 {
                ts
            } else {
                zip_extended(r, ts)
            },
        )
    } else {
        m
    }
}

/// The tempi rounded down to multiples of 128 microseconds.
pub open spec fn floored_128(v: Seq<Mpb>) -> Seq<Mpb> {
    v.map_values(|t: Mpb| floor_128_spec(t))
}

/// The tempo table after `add_tempos`.
pub open spec fn tempos_added(m: Map<Seq<int>, Seq<Seq<Mpb>>>, c: Ctx, v: Seq<Mpb>) -> Map<Seq<int>, Seq<Seq<Mpb>>> {
    if m.contains_key(ctx_key(c)) {
        m.insert(ctx_key(c), m[ctx_key(c)].push(v))
    } else {
        m.insert(ctx_key(c), seq![floored_128(v)])
    }
}

/// The parent of `c` in a map of parents; `Nothing` when it has none.
pub open spec fn parent_in(parents: Map<Seq<int>, Ctx>, c: Ctx) -> Ctx {
    if parents.contains_key(ctx_key(c)) {
        parents[ctx_key(c)]
    } else {
        Ctx::Nothing
    }
}

/// The last row of a table that `c` or its nearest ancestor holds, if any
/// holds a row.
pub open spec fn found_row_in<T>(parents: Map<Seq<int>, Ctx>, m: Map<Seq<int>, Seq<Seq<T>>>, c: Ctx) -> Option<Seq<T>>
    decreases rank(c),
{
    if c == Ctx::Nothing || rank(c) <= 0 {
        None
    } else if m.contains_key(ctx_key(c)) && m[ctx_key(c)].len() > 0 {
        Some(m[ctx_key(c)].last())
    } else if rank(parent_in(parents, c)) < rank(c) {
        found_row_in(parents, m, parent_in(parents, c))
    } else {
        None
    }
}

/// The six parameter tables of a state.
pub struct Tables {
    pub pcs: Map<Seq<int>, Seq<Seq<Pc>>>,
    pub lengths: Map<Seq<int>, Seq<Seq<Length>>>,
    pub velocities: Map<Seq<int>, Seq<Seq<Velocity>>>,
    pub tempos: Map<Seq<int>, Seq<Seq<Mpb>>>,
    pub registers: Map<Seq<int>, Seq<Seq<Register>>>,
    pub programs: Map<Seq<int>, Seq<Seq<Prog>>>,
}

/// The tables after adding the one value `p` to `c` with scope `scope`.
pub open spec fn param_added(t: Tables, c: Ctx, p: Param, scope: Scope) -> Tables {
    match p {
        Param::Pc(v) => Tables { pcs: after_add(t.pcs, c, seq![v], scope), ..t },
        Param::Length(v) => Tables { lengths: after_add(t.lengths, c, seq![v], scope), ..t },
        Param::Velocity(v) => Tables { velocities: after_add(t.velocities, c, seq![v], scope), ..t },
        Param::Tempo(v) => Tables { tempos: after_add_tempos(t.tempos, c, seq![v], scope), ..t },
        Param::Register(v) => Tables { registers: after_add(t.registers, c, seq![v], scope), ..t },
        Param::Program(v) => Tables { programs: after_add(t.programs, c, seq![v], scope), ..t },
    }
}

/// The tables after running the deferred actions `ts`, first to last, on `c`.
pub open spec fn thunks_applied(t: Tables, c: Ctx, ts: Seq<Thunk>, scope: Scope) -> Tables
    decreases ts.len(),
{
    if ts.len() == 0 {
        t
    } else {
        thunk_applied(thunks_applied(t, c, ts.drop_last(), scope), c, ts.last(), scope)
    }
}

/// The tables after running the deferred action `thunk` on `c`.
pub open spec fn thunk_applied(t: Tables, c: Ctx, thunk: Thunk, scope: Scope) -> Tables {
    match thunk {
        Thunk::Add(p) => param_added(t, c, p, scope),
        Thunk::ReplaceLastLength(l) => {
            let r = rows_or_empty(t.lengths, c);
            if has_last(t.lengths, c) {
                Tables { lengths: t.lengths.insert(ctx_key(c), last_replaced(r, l)), ..t }
            } else {
                param_added(t, c, Param::Length(l), scope)
            }
        },
    }
}

/// `c` has rows in the table and its last row has a value.
pub open spec fn has_last<T>(m: Map<Seq<int>, Seq<Seq<T>>>, c: Ctx) -> bool {
    m.contains_key(ctx_key(c)) && m[ctx_key(c)].len() > 0 && m[ctx_key(c)].last().len() > 0
}

/// The rows with `v` in place of the last value of the last row.
pub open spec fn last_replaced<T>(r: Seq<Seq<T>>, v: T) -> Seq<Seq<T>> {
    r.update(r.len() - 1, r.last().update(r.last().len() - 1, v))
}

/// The keys of a timeline are durations in strictly increasing order.
pub open spec fn timeline_sorted(tl: Seq<(Length, Seq<Slice>)>) -> bool {
    &&& forall|i: int| 0 <= i < tl.len() ==> (#[trigger] tl[i]).0 is MicroSeconds && tl[i].0.spec_ratio().wf()
    &&& forall|i: int, j: int| 0 <= i < j < tl.len() ==> (#[trigger] tl[i]).0.spec_ratio().spec_lt((#[trigger] tl[j]).0.spec_ratio())
}

/// `p` is where `at` goes in a sorted timeline: after every earlier time.
pub open spec fn is_place(tl: Seq<(Length, Seq<Slice>)>, at: Length, p: int) -> bool {
    &&& 0 <= p <= tl.len()
    &&& forall|i: int| 0 <= i < p ==> (#[trigger] tl[i]).0.spec_ratio().spec_lt(at.spec_ratio())
    &&& p < tl.len() ==> !tl[p].0.spec_ratio().spec_lt(at.spec_ratio())
}

/// `s` added at `at` to a sorted timeline: last among the slices of the key
/// that stands for the same time, or under a new key in its place.
pub open spec fn timeline_inserted(tl: Seq<(Length, Seq<Slice>)>, at: Length, s: Slice, r: Seq<(Length, Seq<Slice>)>) -> bool {
    exists|p: int| {
        &&& #[trigger] is_place(tl, at, p)
        &&& if p < tl.len() && tl[p].0.spec_ratio().spec_same(at.spec_ratio()) {
            r == tl.update(p, (tl[p].0, tl[p].1.push(s)))
        } else {
            r == tl.insert(p, (at, seq![s]))
        }
    }
}

/// The order in which `compose_thunks` runs a list of actions: the first,
/// then the same order over the rest reversed.
pub open spec fn zigzag(l: Seq<Thunk>) -> Seq<Thunk>
    decreases l.len(),
{
    if l.len() == 0 {
        l
    } else {
        seq![l[0]] + zigzag(l.skip(1).reverse())
    }
}

/// The actions of `c` for `e` emptied, when `c` has a list for `e`.
pub open spec fn thunks_emptied(m: Map<Seq<int>, Map<Seq<int>, Seq<Thunk>>>, c: Ctx, e: LifeCycleEvent) -> Map<Seq<int>, Map<Seq<int>, Seq<Thunk>>> {
    if m.contains_key(ctx_key(c)) && m[ctx_key(c)].contains_key(event_key(e)) {
        m.insert(ctx_key(c), m[ctx_key(c)].insert(event_key(e), Seq::empty()))
    } else {
        m
    }
}

impl State {
    pub closed spec fn spec_index(&self) -> nat {
        self.index_ as nat
    }

    pub closed spec fn spec_exps(&self) -> Seq<ExpV> {
        view_exps(self.exps@)
    }

    pub closed spec fn spec_peeked(&self) -> Seq<ExpV> {
        view_exps(self.peeked@)
    }

    pub closed spec fn spec_stack(&self) -> Seq<ExpV> {
        view_exps(self.stack@)
    }

    pub closed spec fn spec_stack_indexes(&self) -> Seq<usize> {
        self.stack_indexes@
    }

    pub closed spec fn spec_ctx_count(&self) -> nat {
        self.ctx_count as nat
    }

    pub closed spec fn spec_ctxs(&self) -> Set<Seq<int>> {
        self.ctxs@.dom()
    }

    pub closed spec fn spec_parents(&self) -> Map<Seq<int>, Ctx> {
        self.parents@
    }

    pub closed spec fn spec_children(&self) -> Map<Seq<int>, Seq<Ctx>> {
        self.children@.map_values(|v: Vec<Ctx>| v@)
    }

    pub closed spec fn spec_scopes(&self) -> Map<Seq<int>, Scope> {
        self.scopes@
    }

    pub closed spec fn spec_layers(&self) -> Map<Seq<int>, Layer> {
        self.layers@
    }

    pub closed spec fn spec_programs(&self) -> Map<Seq<int>, Seq<Seq<Prog>>> {
        table(self.programs_)
    }

    pub closed spec fn spec_registers(&self) -> Map<Seq<int>, Seq<Seq<Register>>> {
        table(self.registers_)
    }

    pub closed spec fn spec_pcs(&self) -> Map<Seq<int>, Seq<Seq<Pc>>> {
        table(self.pcs_)
    }

    pub closed spec fn spec_lengths(&self) -> Map<Seq<int>, Seq<Seq<Length>>> {
        table(self.lengths_)
    }

    pub closed spec fn spec_velocities(&self) -> Map<Seq<int>, Seq<Seq<Velocity>>> {
        table(self.velocities_)
    }

    pub closed spec fn spec_tempos(&self) -> Map<Seq<int>, Seq<Seq<Mpb>>> {
        table(self.tempos_)
    }

    pub closed spec fn spec_velocity(&self) -> Option<Seq<Velocity>> {
        match self.velocity {
            Some(v) => Some(v@),
            None => None,
        }
    }

    pub closed spec fn spec_tempo(&self) -> Mpb {
        self.tempo
    }

    pub closed spec fn spec_playhead(&self) -> Length {
        self.playhead
    }

    pub closed spec fn spec_thunk_stack(&self) -> Seq<(LifeCycleEvent, Thunk)> {
        self.thunk_stack@
    }

    pub closed spec fn spec_bindings(&self) -> Map<Seq<int>, Map<Seq<int>, ExpV>> {
        self.bindings@.map_values(
            |b: KeyMap<Ident, Exp>| b@.map_values(|e: Exp| view_exp(e)),
        )
    }

    pub closed spec fn spec_instruments(&self) -> Map<Seq<int>, Seq<u8>> {
        self.instruments@.map_values(|v: Vec<u8>| v@)
    }

    pub closed spec fn spec_thunks(&self) -> Map<Seq<int>, Map<Seq<int>, Seq<Thunk>>> {
        self.thunks@.map_values(
            |t: KeyMap<LifeCycleEvent, Vec<Thunk>>| t@.map_values(|v: Vec<Thunk>| v@),
        )
    }

    pub closed spec fn spec_timeline(&self) -> Seq<(Length, Seq<Slice>)> {
        self.timeline_@.map_values(|e: (Length, Vec<Slice>)| (e.0, e.1@))
    }

    /// The reading position, the expressions and the stacks are unchanged.
    pub open spec fn same_reader(&self, o: &State) -> bool {
        &&& self.spec_index() == o.spec_index()
        &&& self.spec_exps() == o.spec_exps()
        &&& self.spec_peeked() == o.spec_peeked()
        &&& self.spec_stack() == o.spec_stack()
        &&& self.spec_stack_indexes() == o.spec_stack_indexes()
    }

    /// The contexts, their links, scopes and layers are unchanged.
    pub open spec fn same_tree(&self, o: &State) -> bool {
        &&& self.spec_ctx_count() == o.spec_ctx_count()
        &&& self.spec_ctxs() == o.spec_ctxs()
        &&& self.spec_parents() == o.spec_parents()
        &&& self.spec_children() == o.spec_children()
        &&& self.spec_scopes() == o.spec_scopes()
        &&& self.spec_layers() == o.spec_layers()
    }

    /// The parameter tables are unchanged.
    pub open spec fn same_params(&self, o: &State) -> bool {
        &&& self.spec_programs() == o.spec_programs()
        &&& self.spec_registers() == o.spec_registers()
        &&& self.spec_pcs() == o.spec_pcs()
        &&& self.spec_lengths() == o.spec_lengths()
        &&& self.spec_velocities() == o.spec_velocities()
        &&& self.spec_tempos() == o.spec_tempos()
    }

    /// Everything else is unchanged: tempo, bindings, instruments, timeline,
    /// playhead and deferred actions.
    pub open spec fn same_rest(&self, o: &State) -> bool {
        &&& self.spec_velocity() == o.spec_velocity()
        &&& self.spec_tempo() == o.spec_tempo()
        &&& self.spec_bindings() == o.spec_bindings()
        &&& self.spec_instruments() == o.spec_instruments()
        &&& self.spec_timeline() == o.spec_timeline()
        &&& self.spec_playhead() == o.spec_playhead()
        &&& self.spec_thunks() == o.spec_thunks()
        &&& self.spec_thunk_stack() == o.spec_thunk_stack()
    }

    /// The scope of `c`; `Nothing` when it has none.
    pub open spec fn scope_of(&self, c: Ctx) -> Scope {
        if self.spec_scopes().contains_key(ctx_key(c)) {
            self.spec_scopes()[ctx_key(c)]
        } else {
            Scope::Nothing
        }
    }

    /// The parent of `c`; `Nothing` when it has none.
    pub open spec fn parent_of(&self, c: Ctx) -> Ctx {
        parent_in(self.spec_parents(), c)
    }

    /// The children of `c`; none when it has none.
    pub open spec fn children_of(&self, c: Ctx) -> Seq<Ctx> {
        children_or_empty(self.spec_children(), c)
    }

    /// The layer of `c`; heterogenous when it has none.
    pub open spec fn layer_of(&self, c: Ctx) -> Layer {
        if self.spec_layers().contains_key(ctx_key(c)) {
            self.spec_layers()[ctx_key(c)]
        } else {
            Layer::Heterogenous
        }
    }

    /// The binding of `ident` seen from `c`: its own, else its parent's, up
    /// to the root.
    pub open spec fn lookup(&self, c: Ctx, ident: Ident) -> Option<ExpV>
        decreases rank(c),
    {
        if c == Ctx::Nothing || rank(c) <= 0 {
            None
        } else {
            let b = self.spec_bindings();
            if b.contains_key(ctx_key(c)) && b[ctx_key(c)].contains_key(ident_key(ident)) {
                Some(b[ctx_key(c)][ident_key(ident)])
            } else if rank(self.parent_of(c)) < rank(c) {
                self.lookup(self.parent_of(c), ident)
            } else {
                None
            }
        }
    }

    /// The last row of a table that `c` or its nearest ancestor holds, if
    /// any holds a row.
    pub open spec fn found_row<T>(&self, m: Map<Seq<int>, Seq<Seq<T>>>, c: Ctx) -> Option<Seq<T>> {
        found_row_in(self.spec_parents(), m, c)
    }

    /// The values that `get` gives for `c`: the row found, or only its last
    /// value when `c` is a stack, or the default when no row is found.
    pub open spec fn got<T>(&self, m: Map<Seq<int>, Seq<Seq<T>>>, c: Ctx, default: T) -> Seq<T> {
        match self.found_row(m, c) {
            Some(r) => if self.scope_of(c) == Scope::Sequence {
                r
            } else if r.len() == 0 {
                Seq::empty()
            } else {
                seq![r.last()]
            },
            None => seq![default],
        }
    }

    /// `get` can read `c`: either no row is found or `c` is a sequence or a stack.
    pub open spec fn gettable<T>(&self, m: Map<Seq<int>, Seq<Seq<T>>>, c: Ctx) -> bool {
        self.found_row(m, c) is None || self.scope_of(c) == Scope::Sequence || self.scope_of(c) == Scope::Stack
    }

    /// `pad` can pad a table of `c`: `get` can read it, and `add` can add to
    /// `c` when something is missing.
    pub open spec fn pad_ok<T>(&self, m: Map<Seq<int>, Seq<Seq<T>>>, c: Ctx) -> bool {
        &&& self.gettable(m, c)
        &&& pad_need(self.spec_pcs(), m, c) > 0 ==> self.scope_of(c) == Scope::Sequence || self.scope_of(c) == Scope::Stack
    }

    /// A table of `c` after `pad`.
    pub open spec fn padded<T>(&self, m: Map<Seq<int>, Seq<Seq<T>>>, c: Ctx, default: T) -> Map<Seq<int>, Seq<Seq<T>>> {
        let need = pad_need(self.spec_pcs(), m, c);
        if need > 0 {
            after_add(m, c, cycled(self.got(m, c, default), need), self.scope_of(c))
        } else {
            m
        }
    }

    /// The tempo table of `c` after `pad`.
    pub open spec fn padded_tempos(&self, c: Ctx) -> Map<Seq<int>, Seq<Seq<Mpb>>> {
        self.tempos_padded(self.spec_tempos(), c)
    }

    /// A tempo table `m` of `c` after `pad`.
    pub open spec fn tempos_padded(&self, m: Map<Seq<int>, Seq<Seq<Mpb>>>, c: Ctx) -> Map<Seq<int>, Seq<Seq<Mpb>>> {
        let need = pad_need(self.spec_pcs(), m, c);
        if need > 0 {
            after_add_tempos(m, c, cycled(self.got(m, c, Mpb::default_spec()), need), self.scope_of(c))
        } else {
            m
        }
    }

    /// How many columns `hoist` moves out of `from`: as many as every
    /// parameter of `from` has rows.
    pub open spec fn hoist_count(&self, from: Ctx) -> nat {
        let a = rows_or_empty(self.spec_pcs(), from).len();
        let b = rows_or_empty(self.spec_programs(), from).len();
        let c = rows_or_empty(self.spec_registers(), from).len();
        let d = rows_or_empty(self.spec_velocities(), from).len();
        let e = rows_or_empty(self.spec_lengths(), from).len();
        let f = rows_or_empty(self.spec_tempos(), from).len();
        let m1 = if b < a { b } else { a };
        let m2 = if c < m1 { c } else { m1 };
        let m3 = if d < m2 { d } else { m2 };
        let m4 = if e < m3 { e } else { m3 };
        if f < m4 { f } else { m4 }
    }

    /// The six parameter tables.
    pub open spec fn spec_tables(&self) -> Tables {
        Tables {
            pcs: self.spec_pcs(),
            lengths: self.spec_lengths(),
            velocities: self.spec_velocities(),
            tempos: self.spec_tempos(),
            registers: self.spec_registers(),
            programs: self.spec_programs(),
        }
    }

    /// The contexts' links are unchanged.
    pub open spec fn same_links(&self, o: &State) -> bool {
        &&& self.spec_parents() == o.spec_parents()
        &&& self.spec_children() == o.spec_children()
    }

    /// Nothing but the contexts and their links, scopes and layers changed.
    pub open spec fn same_but_tree(&self, o: &State) -> bool {
        &&& self.same_reader(o)
        &&& self.same_params(o)
        &&& self.same_rest(o)
    }

    /// The arena is well formed: every map has distinct keys, every child
    /// ranks above the context it is listed under, and every parent below its
    /// child.
    pub closed spec fn wf(&self) -> bool {
        &&& self.ctxs.inv()
        &&& self.parents.inv()
        &&& self.children.inv()
        &&& self.scopes.inv()
        &&& self.layers.inv()
        &&& self.programs_.inv()
        &&& self.registers_.inv()
        &&& self.pcs_.inv()
        &&& self.lengths_.inv()
        &&& self.velocities_.inv()
        &&& self.tempos_.inv()
        &&& self.instruments.inv()
        &&& nested_wf(self.bindings)
        &&& nested_wf(self.thunks)
        &&& ranked(self.spec_children(), self.spec_parents())
        &&& timeline_sorted(self.spec_timeline())
        &&& self.spec_playhead() is MicroSeconds
        &&& self.spec_playhead().spec_ratio().wf()
    }

    /// The playhead of a well-formed state is a number of microseconds with a
    /// nonzero denominator.
    pub proof fn lemma_playhead_wf(&self)
        requires
            self.wf(),
        ensures
            self.spec_playhead() is MicroSeconds,
            self.spec_playhead().spec_ratio().wf(),
    {
    }

    /// An empty state: no contexts, the root scoped as a sequence, 120 bpm.
    pub fn new() -> (r: State)
        ensures
            r.wf(),
            r.spec_index() == 1,
            r.spec_exps().len() == 0,
            r.spec_ctx_count() == 0,
            r.spec_ctxs().is_empty(),
            r.spec_parents().is_empty(),
            r.spec_children().is_empty(),
            r.spec_thunks().is_empty(),
            r.spec_scopes() == map![ctx_key(Ctx::Root) => Scope::Sequence],
            r.spec_programs().is_empty(),
            r.spec_registers().is_empty(),
            r.spec_pcs().is_empty(),
            r.spec_lengths().is_empty(),
            r.spec_velocities().is_empty(),
            r.spec_tempos().is_empty(),
            r.spec_tempo() == Mpb::default_spec(),
            r.spec_playhead() == Length::MicroSeconds(Fraction { numer: 0, denom: 1 }),
            r.spec_stack().len() == 0,
            r.spec_peeked().len() == 0,
            r.spec_thunk_stack().len() == 0,
            r.spec_stack_indexes().len() == 0,
            r.spec_timeline().len() == 0,
            r.spec_instruments().is_empty(),
            r.spec_bindings().is_empty(),
            r.spec_layers().is_empty(),
            r.spec_velocity() is None,
    {
        let mut scopes = CtxMap::new();
        scopes.insert(Ctx::Root, Scope::Sequence);
        let r = State {
            index_: 1,
            stack_indexes: Vec::new(),
            peeked: Vec::new(),
            exps: Vec::new(),
            ctx_count: 0,
            ctxs: CtxMap::new(),
            parents: CtxMap::new(),
            children: CtxMap::new(),
            scopes,
            layers: CtxMap::new(),
            programs_: CtxMap::new(),
            registers_: CtxMap::new(),
            pcs_: CtxMap::new(),
            lengths_: CtxMap::new(),
            velocity: None,
            velocities_: CtxMap::new(),
            tempo: Mpb::default(),
            tempos_: CtxMap::new(),
            bindings: CtxMap::new(),
            instruments: KeyMap::new(),
            timeline_: Vec::new(),
            playhead: Length::default(),
            stack: Vec::new(),
            thunks: CtxMap::new(),
            thunk_stack: Vec::new(),
        };
        proof {
            assert(r.spec_children() =~= Map::empty());
            assert(r.spec_programs() =~= Map::empty());
            assert(r.spec_registers() =~= Map::empty());
            assert(r.spec_pcs() =~= Map::empty());
            assert(r.spec_lengths() =~= Map::empty());
            assert(r.spec_velocities() =~= Map::empty());
            assert(r.spec_tempos() =~= Map::empty());
            assert(r.spec_scopes() =~= map![ctx_key(Ctx::Root) => Scope::Sequence]);
            assert(r.spec_exps() =~= Seq::empty());
            assert(r.spec_stack() =~= Seq::empty());
            assert(r.spec_peeked() =~= Seq::empty());
        }
        r
    }
}


impl State {
    /// The next expression: the last one pushed back, or else the one at the
    /// reading position, which then moves on.
    pub fn next(&mut self) -> (r: Option<Exp>)
        requires
            old(self).spec_peeked().len() > 0 || old(self).spec_index() < usize::MAX,
        ensures
            final(self).wf() == old(self).wf(),
            final(self).same_tree(old(self)),
            final(self).same_params(old(self)),
            final(self).same_rest(old(self)),
            final(self).spec_exps() == old(self).spec_exps(),
            final(self).spec_stack() == old(self).spec_stack(),
            final(self).spec_stack_indexes() == old(self).spec_stack_indexes(),
            old(self).spec_peeked().len() > 0 ==> {
                &&& final(self).spec_index() == old(self).spec_index()
                &&& final(self).spec_peeked() == old(self).spec_peeked().drop_last()
                &&& (r matches Some(e) && e@ == old(self).spec_peeked().last())
            },
            old(self).spec_peeked().len() == 0 ==> {
                &&& final(self).spec_index() == old(self).spec_index() + 1
                &&& final(self).spec_peeked() == old(self).spec_peeked()
                &&& (old(self).spec_index() < old(self).spec_exps().len() ==> (r matches Some(e)
                    && e@ == old(self).spec_exps()[old(self).spec_index() as int]))
                &&& (old(self).spec_index() >= old(self).spec_exps().len() ==> r is None)
            },
    {
        if self.peeked.len() > 0 {
            let ghost before = self.peeked@;
            let r = self.peeked.pop();
            proof {
                assert(before == self.peeked@.push(r.unwrap()));
                assert(view_exps(before) == view_exps(self.peeked@).push(view_exp(r.unwrap())));
                assert(before.drop_last() =~= self.peeked@);
            }
            r
        } else {
            let index = self.index_;
            self.index_ = self.index_ + 1;
            if index < self.exps.len() {
                proof {
                    lemma_view_exps_index(self.exps@, index as int);
                }
                Some(clone_exp(&self.exps[index]))
            } else {
                proof {
                    lemma_view_exps_len(self.exps@);
                }
                None
            }
        }
    }

    /// How many expressions are left after the reading position.
    pub fn len(&self) -> (r: usize)
        requires
            self.spec_index() <= self.spec_exps().len(),
        ensures
            r == self.spec_exps().len() - self.spec_index(),
    {
        proof {
            lemma_view_exps_len(self.exps@);
        }
        self.exps.len() - self.index_
    }

    /// The reading position.
    pub fn index(&self) -> (r: usize)
        ensures
            r == self.spec_index(),
    {
        self.index_
    }

    /// How many expressions were pushed back and wait to be read.
    pub fn peeked_len(&self) -> (r: usize)
        ensures
            r == self.spec_peeked().len(),
    {
        proof {
            lemma_view_exps_len(self.peeked@);
        }
        self.peeked.len()
    }

    /// How many contexts were made so far.
    pub fn ctx_count(&self) -> (r: usize)
        ensures
            r == self.spec_ctx_count(),
    {
        self.ctx_count
    }

    /// The expressions being read.
    pub fn exps(&self) -> (r: &Vec<Exp>)
        ensures
            view_exps(r@) == self.spec_exps(),
    {
        &self.exps
    }

    /// Reads `exps` from `index` on; returns the expressions that were being
    /// read and where reading them should resume, before what was pushed back.
    pub fn set_exps(&mut self, exps: Vec<Exp>, index: usize) -> (r: (Vec<Exp>, usize))
        requires
            old(self).spec_peeked().len() <= old(self).spec_index(),
        ensures
            final(self).wf() == old(self).wf(),
            final(self).same_tree(old(self)),
            final(self).same_params(old(self)),
            final(self).same_rest(old(self)),
            final(self).spec_exps() == view_exps(exps@),
            final(self).spec_index() == index,
            final(self).spec_peeked().len() == 0,
            final(self).spec_stack() == old(self).spec_stack(),
            final(self).spec_stack_indexes() == old(self).spec_stack_indexes(),
            view_exps(r.0@) == old(self).spec_exps(),
            r.1 == old(self).spec_index() - old(self).spec_peeked().len(),
    {
        proof {
            lemma_view_exps_len(self.peeked@);
        }
        let index_ = self.index_ - self.peeked.len();
        self.peeked.clear();
        let mut exps = exps;
        std::mem::swap(&mut self.exps, &mut exps);
        self.index_ = index;
        proof {
            assert(view_exps(self.peeked@) =~= Seq::empty());
        }
        (exps, index_)
    }

    /// Replaces the stack of stored expressions and returns the old one.
    pub fn set_stack(&mut self, stack: Vec<Exp>) -> (r: Vec<Exp>)
        ensures
            final(self).wf() == old(self).wf(),
            final(self).same_tree(old(self)),
            final(self).same_params(old(self)),
            final(self).same_rest(old(self)),
            final(self).spec_index() == old(self).spec_index(),
            final(self).spec_exps() == old(self).spec_exps(),
            final(self).spec_peeked() == old(self).spec_peeked(),
            final(self).spec_stack_indexes() == old(self).spec_stack_indexes(),
            final(self).spec_stack() == view_exps(stack@),
            view_exps(r@) == old(self).spec_stack(),
    {
        let mut stack = stack;
        std::mem::swap(&mut self.stack, &mut stack);
        stack
    }

    /// Pushes an expression back, to be read next.
    pub fn push_back(&mut self, exp: Exp)
        ensures
            final(self).wf() == old(self).wf(),
            final(self).same_tree(old(self)),
            final(self).same_params(old(self)),
            final(self).same_rest(old(self)),
            final(self).spec_index() == old(self).spec_index(),
            final(self).spec_exps() == old(self).spec_exps(),
            final(self).spec_stack() == old(self).spec_stack(),
            final(self).spec_stack_indexes() == old(self).spec_stack_indexes(),
            final(self).spec_peeked() == old(self).spec_peeked().push(exp@),
    {
        let ghost before = self.peeked@;
        self.peeked.push(exp);
        proof {
            lemma_view_exps_push(before, exp);
        }
    }

    /// Stores an expression on the stack.
    pub fn store(&mut self, exp: Exp)
        ensures
            final(self).wf() == old(self).wf(),
            final(self).same_tree(old(self)),
            final(self).same_params(old(self)),
            final(self).same_rest(old(self)),
            final(self).spec_index() == old(self).spec_index(),
            final(self).spec_exps() == old(self).spec_exps(),
            final(self).spec_peeked() == old(self).spec_peeked(),
            final(self).spec_stack_indexes() == old(self).spec_stack_indexes(),
            final(self).spec_stack() == old(self).spec_stack().push(exp@),
    {
        let ghost before = self.stack@;
        self.stack.push(exp);
        proof {
            lemma_view_exps_push(before, exp);
        }
    }

    /// Takes the last stored expression off the stack.
    pub fn load(&mut self) -> (r: Option<Exp>)
        ensures
            final(self).wf() == old(self).wf(),
            final(self).same_tree(old(self)),
            final(self).same_params(old(self)),
            final(self).same_rest(old(self)),
            final(self).spec_index() == old(self).spec_index(),
            final(self).spec_exps() == old(self).spec_exps(),
            final(self).spec_peeked() == old(self).spec_peeked(),
            final(self).spec_stack_indexes() == old(self).spec_stack_indexes(),
            old(self).spec_stack().len() == 0 ==> r is None && final(self).spec_stack().len() == 0,
            old(self).spec_stack().len() > 0 ==> (r matches Some(e) && e@ == old(
                self,
            ).spec_stack().last()) && final(self).spec_stack() == old(self).spec_stack().drop_last(),
    {
        let ghost before = self.stack@;
        proof {
            lemma_view_exps_len(before);
        }
        let r = self.stack.pop();
        proof {
            if before.len() > 0 {
                assert(before == self.stack@.push(r.unwrap()));
                lemma_view_exps_push(self.stack@, r.unwrap());
                assert(before.drop_last() =~= self.stack@);
            } else {
                lemma_view_exps_len(self.stack@);
            }
        }
        r
    }

    /// Takes the last stored expression off the stack.
    pub fn pop(&mut self) -> (r: Option<Exp>)
        ensures
            final(self).wf() == old(self).wf(),
            final(self).same_tree(old(self)),
            final(self).same_params(old(self)),
            final(self).same_rest(old(self)),
            final(self).spec_index() == old(self).spec_index(),
            final(self).spec_exps() == old(self).spec_exps(),
            final(self).spec_peeked() == old(self).spec_peeked(),
            final(self).spec_stack_indexes() == old(self).spec_stack_indexes(),
            old(self).spec_stack().len() == 0 ==> r is None && final(self).spec_stack().len() == 0,
            old(self).spec_stack().len() > 0 ==> (r matches Some(e) && e@ == old(
                self,
            ).spec_stack().last()) && final(self).spec_stack() == old(self).spec_stack().drop_last(),
    {
        self.load()
    }

    /// Remembers the reading position and skips one expression.
    pub fn push(&mut self)
        requires
            old(self).spec_index() < usize::MAX,
        ensures
            final(self).wf() == old(self).wf(),
            final(self).same_tree(old(self)),
            final(self).same_params(old(self)),
            final(self).same_rest(old(self)),
            final(self).spec_exps() == old(self).spec_exps(),
            final(self).spec_peeked() == old(self).spec_peeked(),
            final(self).spec_stack() == old(self).spec_stack(),
            final(self).spec_stack_indexes() == old(self).spec_stack_indexes().push(
                old(self).spec_index() as usize,
            ),
            final(self).spec_index() == old(self).spec_index() + 1,
    {
        self.stack_indexes.push(self.index_);
        self.index_ = self.index_ + 1;
    }

    /// The stored expressions.
    pub fn stack(&self) -> (r: &Vec<Exp>)
        ensures
            view_exps(r@) == self.spec_stack(),
    {
        &self.stack
    }

    /// How many reading positions are remembered.
    pub fn stack_len(&self) -> (r: usize)
        ensures
            r == self.spec_stack_indexes().len(),
    {
        self.stack_indexes.len()
    }
}

impl State {
    /// A fresh context, numbered by the count of contexts so far.
    pub fn new_ctx(&mut self) -> (r: Ctx)
        requires
            old(self).wf(),
            old(self).spec_ctx_count() < usize::MAX,
        ensures
            final(self).wf(),
            r == Ctx::Id(old(self).spec_ctx_count() as usize),
            final(self).spec_ctx_count() == old(self).spec_ctx_count() + 1,
            final(self).spec_ctxs() == old(self).spec_ctxs().insert(ctx_key(r)),
            final(self).same_links(old(self)),
            final(self).spec_scopes() == old(self).spec_scopes(),
            final(self).spec_layers() == old(self).spec_layers(),
            final(self).same_but_tree(old(self)),
    {
        let id = self.ctx_count;
        self.ctx_count = self.ctx_count + 1;
        let ctx = Ctx::Id(id);
        self.ctxs.insert(ctx, ());
        ctx
    }

    /// The scope of `ctx`.
    pub fn scope(&self, ctx: Ctx) -> (r: Scope)
        requires
            self.wf(),
        ensures
            r == self.scope_of(ctx),
    {
        match self.scopes.get(&ctx) {
            Some(s) => *s,
            None => Scope::Nothing,
        }
    }

    /// Gives `ctx` the scope `scope`.
    pub fn set_scope(&mut self, ctx: Ctx, scope: Scope)
        requires
            old(self).wf(),
        ensures
            final(self).wf(),
            final(self).spec_scopes() == old(self).spec_scopes().insert(ctx_key(ctx), scope),
            final(self).spec_ctx_count() == old(self).spec_ctx_count(),
            final(self).spec_ctxs() == old(self).spec_ctxs(),
            final(self).same_links(old(self)),
            final(self).spec_layers() == old(self).spec_layers(),
            final(self).same_but_tree(old(self)),
    {
        self.scopes.insert(ctx, scope);
    }

    /// The layer of `ctx`.
    pub fn layer(&self, ctx: Ctx) -> (r: Layer)
        requires
            self.wf(),
        ensures
            r == self.layer_of(ctx),
    {
        match self.layers.get(&ctx) {
            Some(l) => *l,
            None => Layer::Heterogenous,
        }
    }

    /// Gives `ctx` the layer `layer`, when it has one already.
    pub fn set_layer(&mut self, ctx: Ctx, layer: Layer)
        requires
            old(self).wf(),
        ensures
            final(self).wf(),
            old(self).spec_layers().contains_key(ctx_key(ctx)) ==> final(self).spec_layers()
                == old(self).spec_layers().insert(ctx_key(ctx), layer),
            !old(self).spec_layers().contains_key(ctx_key(ctx)) ==> final(self).spec_layers()
                == old(self).spec_layers(),
            final(self).spec_ctx_count() == old(self).spec_ctx_count(),
            final(self).spec_ctxs() == old(self).spec_ctxs(),
            final(self).same_links(old(self)),
            final(self).spec_scopes() == old(self).spec_scopes(),
            final(self).same_but_tree(old(self)),
    {
        if self.layers.contains(&ctx) {
            self.layers.insert(ctx, layer);
        }
    }

    /// The parent of `ctx`.
    pub fn parent(&self, ctx: Ctx) -> (r: Ctx)
        requires
            self.wf(),
        ensures
            r == self.parent_of(ctx),
            ctx != Ctx::Nothing && r != Ctx::Nothing ==> rank(r) < rank(ctx),
    {
        match self.parents.get(&ctx) {
            Some(p) => *p,
            None => Ctx::Nothing,
        }
    }

    /// Makes `parent` the parent of `ctx` and lists `ctx` last among its
    /// children.
    pub fn set_parent(&mut self, ctx: Ctx, parent: Ctx)
        requires
            old(self).wf(),
            rank(parent) < rank(ctx),
        ensures
            final(self).wf(),
            final(self).spec_parents() == old(self).spec_parents().insert(ctx_key(ctx), parent),
            final(self).spec_children() == old(self).spec_children().insert(
                ctx_key(parent),
                old(self).children_of(parent).push(ctx),
            ),
            final(self).spec_ctx_count() == old(self).spec_ctx_count(),
            final(self).spec_ctxs() == old(self).spec_ctxs(),
            final(self).spec_scopes() == old(self).spec_scopes(),
            final(self).spec_layers() == old(self).spec_layers(),
            final(self).same_but_tree(old(self)),
    {
        let ghost old_children = self.spec_children();
        let ghost old_parents = self.spec_parents();
        self.parents.insert(ctx, parent);
        let mut list = match self.children.remove(&parent) {
            Some(v) => v,
            None => Vec::new(),
        };
        proof {
            assert(list@ == children_or_empty(old_children, parent));
        }
        list.push(ctx);
        self.children.insert(parent, list);
        proof {
            let new_children = old_children.insert(ctx_key(parent), children_or_empty(old_children, parent).push(ctx));
            assert(self.spec_children() =~= new_children);
            lemma_ranked_link(old_children, old_parents, ctx, parent);
        }
    }

    /// The children of `ctx`, in order.
    pub fn children(&self, ctx: Ctx) -> (r: Vec<Ctx>)
        requires
            self.wf(),
        ensures
            r@ == self.children_of(ctx),
            forall|i: int| 0 <= i < r@.len() ==> rank(#[trigger] r@[i]) > rank(ctx),
    {
        match self.children.get(&ctx) {
            Some(v) => v.clone(),
            None => Vec::new(),
        }
    }
}

impl State {
    /// Moves `child` last under `parent`; first drops from the children of
    /// `parent` every context numbered like `child`.
    pub fn move_child(&mut self, child: Ctx, parent: Ctx)
        requires
            old(self).wf(),
            rank(parent) < rank(child),
        ensures
            final(self).wf(),
            final(self).spec_parents() == old(self).spec_parents().insert(ctx_key(child), parent),
            final(self).spec_children() == old(self).spec_children().insert(
                ctx_key(parent),
                without_index(old(self).children_of(parent), ctx_index(child)).push(child),
            ),
            final(self).spec_ctx_count() == old(self).spec_ctx_count(),
            final(self).spec_ctxs() == old(self).spec_ctxs(),
            final(self).spec_scopes() == old(self).spec_scopes(),
            final(self).spec_layers() == old(self).spec_layers(),
            final(self).same_but_tree(old(self)),
    {
        let ghost old_children = self.spec_children();
        let ghost old_parents = self.spec_parents();
        let n = child.to_usize();
        if self.children.contains(&parent) {
            let list = self.children(parent);
            let mut kept: Vec<Ctx> = Vec::new();
            let mut i: usize = 0;
            while i < list.len()
                invariant
                    i <= list@.len(),
                    n == ctx_index(child),
                    kept@ == without_index(list@.take(i as int), n as int),
                decreases list@.len() - i,
            {
                proof {
                    assert(list@.take(i + 1).drop_last() =~= list@.take(i as int));
                }
                if list[i].to_usize() != n {
                    kept.push(list[i]);
                }
                i = i + 1;
            }
            proof {
                assert(list@.take(list@.len() as int) =~= list@);
                lemma_without_index_ranks(list@, n as int, rank(parent));
            }
            self.children.insert(parent, kept);
            proof {
                assert(self.spec_children() =~= old_children.insert(ctx_key(parent), without_index(children_or_empty(old_children, parent), n as int)));
                lemma_ranked_shrink(old_children, old_parents, parent, without_index(children_or_empty(old_children, parent), n as int));
            }
        } else {
            proof {
                assert(without_index(children_or_empty(old_children, parent), n as int) =~= Seq::empty());
            }
        }
        let ghost mid_children = self.spec_children();
        let _ = self.parents.remove(&child);
        proof {
            lemma_ranked_unparent(mid_children, old_parents, child);
        }
        self.set_parent(child, parent);
        proof {
            assert(self.spec_parents() =~= old_parents.insert(ctx_key(child), parent));
            if !old_children.contains_key(ctx_key(parent)) {
                assert(children_or_empty(mid_children, parent) =~= Seq::empty());
            }
        }
    }

    /// Moves every child of `src` under `dest`, in order; each was made after
    /// `dest`.
    pub fn move_children(&mut self, src: Ctx, dest: Ctx)
        requires
            old(self).wf(),
            forall|i: int| 0 <= i < old(self).children_of(src).len() ==> rank(dest) < rank(#[trigger] old(self).children_of(src)[i]),
        ensures
            final(self).wf(),
            final(self).spec_ctx_count() == old(self).spec_ctx_count(),
            final(self).spec_ctxs() == old(self).spec_ctxs(),
            final(self).spec_scopes() == old(self).spec_scopes(),
            final(self).spec_layers() == old(self).spec_layers(),
            final(self).same_but_tree(old(self)),
            forall|i: int| 0 <= i < old(self).children_of(src).len() ==>
                final(self).parent_of(#[trigger] old(self).children_of(src)[i]) == dest,
            final(self).children_of(dest) == moved_into(old(self).children_of(dest), old(self).children_of(src)),
    {
        let children = self.children(src);
        let mut i: usize = 0;
        while i < children.len()
            invariant
                self.wf(),
                i <= children@.len(),
                forall|j: int| 0 <= j < children@.len() ==> rank(#[trigger] children@[j]) > rank(dest),
                self.spec_ctx_count() == old(self).spec_ctx_count(),
                self.spec_ctxs() == old(self).spec_ctxs(),
                self.spec_scopes() == old(self).spec_scopes(),
                self.spec_layers() == old(self).spec_layers(),
                self.same_but_tree(old(self)),
                children@ == old(self).children_of(src),
                forall|j: int| 0 <= j < i ==> self.parent_of(#[trigger] children@[j]) == dest,
                self.children_of(dest) == moved_into(old(self).children_of(dest), children@.take(i as int)),
            decreases children@.len() - i,
        {
            let c = children[i];
            self.move_child(c, dest);
            proof {
                assert(children@.take(i + 1).drop_last() =~= children@.take(i as int));
                assert(children@.take(i + 1).last() == c);
                assert forall|j: int| 0 <= j < i + 1 implies self.parent_of(#[trigger] children@[j]) == dest by {
                    lemma_ctx_key_injective(children@[j], c);
                }
            }
            i = i + 1;
        }
        proof {
            assert(children@.take(children@.len() as int) =~= children@);
        }
    }

    /// Lists `child` last among the children of `parent`, when `parent` has a
    /// list of children.
    pub fn add_child(&mut self, parent: Ctx, child: Ctx)
        requires
            old(self).wf(),
            rank(parent) < rank(child),
        ensures
            final(self).wf(),
            old(self).spec_children().contains_key(ctx_key(parent)) ==> final(self).spec_children()
                == old(self).spec_children().insert(ctx_key(parent), old(self).children_of(parent).push(child)),
            !old(self).spec_children().contains_key(ctx_key(parent)) ==> final(self).spec_children()
                == old(self).spec_children(),
            final(self).spec_parents() == old(self).spec_parents(),
            final(self).spec_ctx_count() == old(self).spec_ctx_count(),
            final(self).spec_ctxs() == old(self).spec_ctxs(),
            final(self).spec_scopes() == old(self).spec_scopes(),
            final(self).spec_layers() == old(self).spec_layers(),
            final(self).same_but_tree(old(self)),
    {
        let ghost old_children = self.spec_children();
        if let Some(mut list) = self.children.remove(&parent) {
            list.push(child);
            self.children.insert(parent, list);
            proof {
                assert(self.spec_children() =~= old_children.insert(ctx_key(parent), children_or_empty(old_children, parent).push(child)));
                let l = children_or_empty(old_children, parent).push(child);
                assert forall|i: int| 0 <= i < l.len() implies rank(#[trigger] l[i]) > rank(parent) by {
                    if i < l.len() - 1 {
                        assert(l[i] == children_or_empty(old_children, parent)[i]);
                    }
                }
                lemma_ranked_shrink(old_children, self.spec_parents(), parent, l);
            }
        } else {
            proof {
                assert(self.spec_children() =~= old_children);
            }
        }
    }

    /// The deferred actions of `ctx` for `event`, in the order they were added.
    pub fn thunks(&self, ctx: Ctx, event: LifeCycleEvent) -> (r: Vec<Thunk>)
        requires
            self.wf(),
        ensures
            r@ == event_thunks(self.spec_thunks(), ctx, event),
    {
        match self.thunks.get(&ctx) {
            Some(m) => {
                proof {
                    assert(self.thunks@.contains_key(ctx_key(ctx)));
                }
                match m.get(&event) {
                    Some(v) => v.clone(),
                    None => Vec::new(),
                }
            },
            None => Vec::new(),
        }
    }

    /// Defers `thunk` until the next context is appended, for `event`.
    pub fn push_thunk(&mut self, event: LifeCycleEvent, thunk: Thunk)
        ensures
            final(self).wf() == old(self).wf(),
            final(self).same_tree(old(self)),
            final(self).same_reader(old(self)),
            final(self).same_params(old(self)),
            final(self).spec_thunk_stack() == old(self).spec_thunk_stack().push((event, thunk)),
            final(self).spec_thunks() == old(self).spec_thunks(),
            final(self).spec_velocity() == old(self).spec_velocity(),
            final(self).spec_tempo() == old(self).spec_tempo(),
            final(self).spec_bindings() == old(self).spec_bindings(),
            final(self).spec_instruments() == old(self).spec_instruments(),
            final(self).spec_timeline() == old(self).spec_timeline(),
            final(self).spec_playhead() == old(self).spec_playhead(),
    {
        self.thunk_stack.push((event, thunk));
    }

    /// Adds `thunk` last to the actions of `ctx` for `event`.
    pub fn add_thunk(&mut self, ctx: Ctx, event: LifeCycleEvent, thunk: Thunk)
        requires
            old(self).wf(),
        ensures
            final(self).wf(),
            final(self).same_tree(old(self)),
            final(self).same_reader(old(self)),
            final(self).same_params(old(self)),
            final(self).spec_thunks() == with_thunk(old(self).spec_thunks(), ctx, event, thunk),
            final(self).spec_thunk_stack() == old(self).spec_thunk_stack(),
            final(self).spec_velocity() == old(self).spec_velocity(),
            final(self).spec_tempo() == old(self).spec_tempo(),
            final(self).spec_bindings() == old(self).spec_bindings(),
            final(self).spec_instruments() == old(self).spec_instruments(),
            final(self).spec_timeline() == old(self).spec_timeline(),
            final(self).spec_playhead() == old(self).spec_playhead(),
    {
        let ghost old_t = self.spec_thunks();
        let ghost old_raw = self.thunks@;
        let mut m = match self.thunks.remove(&ctx) {
            Some(m) => m,
            None => KeyMap::new(),
        };
        proof {
            assert(m.inv());
            assert(m@.map_values(|v: Vec<Thunk>| v@) =~= thunks_or_empty(old_t, ctx));
        }
        let mut list = match m.remove(&event) {
            Some(v) => v,
            None => Vec::new(),
        };
        proof {
            assert(list@ == event_thunks(old_t, ctx, event));
        }
        list.push(thunk);
        let ghost m_before = m@;
        m.insert(event, list);
        proof {
            assert(m@.map_values(|v: Vec<Thunk>| v@) =~= thunks_or_empty(old_t, ctx).insert(event_key(event), event_thunks(old_t, ctx, event).push(thunk)));
        }
        self.thunks.insert(ctx, m);
        proof {
            assert(self.spec_thunks() =~= with_thunk(old_t, ctx, event, thunk));
            assert forall|k: Seq<int>| #[trigger] self.thunks@.contains_key(k) implies self.thunks@[k].inv() by {
                if k != ctx_key(ctx) {
                    assert(old_raw.contains_key(k));
                }
            }
        }
    }
}

impl State {
    /// Appends a new context under `parent` and returns it: the root, the
    /// first time, and the next numbered context after. The new context has
    /// no scope, a heterogenous layer, empty parameters and no bindings, and
    /// receives the pending actions. `parent` is a context made before (or no
    /// context), so that the tree keeps no cycle.
    pub fn append_child(&mut self, parent: Ctx) -> (r: Ctx)
        requires
            old(self).wf(),
            !old(self).spec_ctxs().is_empty() ==> rank(parent) <= old(self).spec_ctx_count(),
            old(self).spec_ctx_count() < usize::MAX,
        ensures
            final(self).wf(),
            old(self).spec_ctxs().is_empty() ==> {
                &&& r == Ctx::Root
                &&& final(self).spec_ctxs() == old(self).spec_ctxs().insert(ctx_key(parent))
                &&& final(self).spec_parents() == old(self).spec_parents().insert(
                    ctx_key(Ctx::Root),
                    Ctx::Nothing,
                )
                &&& final(self).spec_children() == old(self).spec_children().insert(
                    ctx_key(Ctx::Nothing),
                    old(self).children_of(Ctx::Nothing).push(Ctx::Root),
                )
            },
            !old(self).spec_ctxs().is_empty() ==> {
                &&& r == Ctx::Id(old(self).spec_ctx_count() as usize)
                &&& final(self).spec_ctxs() == old(self).spec_ctxs().insert(ctx_key(r))
                &&& final(self).spec_parents() == old(self).spec_parents().insert(ctx_key(r), parent)
                &&& final(self).spec_children() == old(self).spec_children().insert(
                    ctx_key(parent),
                    old(self).children_of(parent).push(r),
                )
            },
            final(self).spec_ctx_count() == old(self).spec_ctx_count() + 1,
            final(self).spec_scopes() == old(self).spec_scopes().insert(ctx_key(r), Scope::Nothing),
            final(self).spec_layers() == old(self).spec_layers().insert(ctx_key(r), Layer::Heterogenous),
            final(self).spec_programs() == old(self).spec_programs().insert(ctx_key(r), Seq::empty()),
            final(self).spec_registers() == old(self).spec_registers().insert(ctx_key(r), Seq::empty()),
            final(self).spec_pcs() == old(self).spec_pcs().insert(ctx_key(r), Seq::empty()),
            final(self).spec_lengths() == old(self).spec_lengths().insert(ctx_key(r), Seq::empty()),
            final(self).spec_velocities() == old(self).spec_velocities().insert(ctx_key(r), Seq::empty()),
            final(self).spec_tempos() == old(self).spec_tempos().insert(ctx_key(r), Seq::empty()),
            final(self).spec_bindings() == old(self).spec_bindings().insert(ctx_key(r), Map::empty()),
            final(self).spec_thunks() == drain_thunks(old(self).spec_thunks(), r, old(self).spec_thunk_stack()),
            final(self).spec_thunk_stack().len() == 0,
            final(self).same_reader(old(self)),
            final(self).spec_velocity() == old(self).spec_velocity(),
            final(self).spec_tempo() == old(self).spec_tempo(),
            final(self).spec_instruments() == old(self).spec_instruments(),
            final(self).spec_timeline() == old(self).spec_timeline(),
            final(self).spec_playhead() == old(self).spec_playhead(),
    {
        let ctx = if self.ctxs.is_empty() {
            self.ctxs.insert(parent, ());
            self.ctx_count = self.ctx_count + 1;
            self.set_parent(Ctx::Root, Ctx::Nothing);
            Ctx::Root
        } else {
            let ctx = self.new_ctx();
            self.set_parent(ctx, parent);
            ctx
        };
        self.set_scope(ctx, Scope::Nothing);
        self.layers.insert(ctx, Layer::Heterogenous);
        let ghost t0 = self.spec_programs();
        let et0: Vec<Vec<_>> = Vec::new();
        proof { assert(rows(et0) =~= Seq::empty()); }
        self.programs_.insert(ctx, et0);
        proof { assert(self.spec_programs() =~= t0.insert(ctx_key(ctx), Seq::empty())); }
        let ghost t1 = self.spec_registers();
        let et1: Vec<Vec<_>> = Vec::new();
        proof { assert(rows(et1) =~= Seq::empty()); }
        self.registers_.insert(ctx, et1);
        proof { assert(self.spec_registers() =~= t1.insert(ctx_key(ctx), Seq::empty())); }
        let ghost t2 = self.spec_pcs();
        let et2: Vec<Vec<_>> = Vec::new();
        proof { assert(rows(et2) =~= Seq::empty()); }
        self.pcs_.insert(ctx, et2);
        proof { assert(self.spec_pcs() =~= t2.insert(ctx_key(ctx), Seq::empty())); }
        let ghost t3 = self.spec_lengths();
        let et3: Vec<Vec<_>> = Vec::new();
        proof { assert(rows(et3) =~= Seq::empty()); }
        self.lengths_.insert(ctx, et3);
        proof { assert(self.spec_lengths() =~= t3.insert(ctx_key(ctx), Seq::empty())); }
        let ghost t4 = self.spec_velocities();
        let et4: Vec<Vec<_>> = Vec::new();
        proof { assert(rows(et4) =~= Seq::empty()); }
        self.velocities_.insert(ctx, et4);
        proof { assert(self.spec_velocities() =~= t4.insert(ctx_key(ctx), Seq::empty())); }
        let ghost t5 = self.spec_tempos();
        let et5: Vec<Vec<_>> = Vec::new();
        proof { assert(rows(et5) =~= Seq::empty()); }
        self.tempos_.insert(ctx, et5);
        proof { assert(self.spec_tempos() =~= t5.insert(ctx_key(ctx), Seq::empty())); }
        let ghost b0 = self.bindings@;
        let ghost sb0 = self.spec_bindings();
        let empty: KeyMap<Ident, Exp> = KeyMap::new();
        proof {
            assert(empty@.map_values(|e: Exp| view_exp(e)) =~= Map::empty());
        }
        self.bindings.insert(ctx, empty);
        proof {
            assert(self.spec_bindings() =~= sb0.insert(ctx_key(ctx), Map::empty()));
            assert forall|k: Seq<int>| #[trigger] self.bindings@.contains_key(k) implies self.bindings@[k].inv() by {
                if k != ctx_key(ctx) {
                    assert(b0.contains_key(k));
                }
            }
        }
        let ghost drained = self.spec_thunks();
        let ghost pending = self.spec_thunk_stack();
        while self.thunk_stack.len() > 0
            invariant
                self.wf(),
                drain_thunks(self.spec_thunks(), ctx, self.spec_thunk_stack()) == drain_thunks(drained, ctx, pending),
                self.spec_ctx_count() == old(self).spec_ctx_count() + 1,
                self.spec_ctxs() == (if old(self).spec_ctxs().is_empty() { old(self).spec_ctxs().insert(ctx_key(parent)) } else { old(self).spec_ctxs().insert(ctx_key(ctx)) }),
                self.spec_parents() == (if old(self).spec_ctxs().is_empty() { old(self).spec_parents().insert(ctx_key(Ctx::Root), Ctx::Nothing) } else { old(self).spec_parents().insert(ctx_key(ctx), parent) }),
                self.spec_children() == (if old(self).spec_ctxs().is_empty() { old(self).spec_children().insert(ctx_key(Ctx::Nothing), old(self).children_of(Ctx::Nothing).push(Ctx::Root)) } else { old(self).spec_children().insert(ctx_key(parent), old(self).children_of(parent).push(ctx)) }),
                self.spec_scopes() == old(self).spec_scopes().insert(ctx_key(ctx), Scope::Nothing),
                self.spec_layers() == old(self).spec_layers().insert(ctx_key(ctx), Layer::Heterogenous),
                self.spec_programs() == old(self).spec_programs().insert(ctx_key(ctx), Seq::empty()),
                self.spec_registers() == old(self).spec_registers().insert(ctx_key(ctx), Seq::empty()),
                self.spec_pcs() == old(self).spec_pcs().insert(ctx_key(ctx), Seq::empty()),
                self.spec_lengths() == old(self).spec_lengths().insert(ctx_key(ctx), Seq::empty()),
                self.spec_velocities() == old(self).spec_velocities().insert(ctx_key(ctx), Seq::empty()),
                self.spec_tempos() == old(self).spec_tempos().insert(ctx_key(ctx), Seq::empty()),
                self.spec_bindings() == old(self).spec_bindings().insert(ctx_key(ctx), Map::empty()),
                self.same_reader(old(self)),
                self.spec_velocity() == old(self).spec_velocity(),
                self.spec_tempo() == old(self).spec_tempo(),
                self.spec_instruments() == old(self).spec_instruments(),
                self.spec_timeline() == old(self).spec_timeline(),
                self.spec_playhead() == old(self).spec_playhead(),
            decreases self.spec_thunk_stack().len(),
        {
            let ghost before = self.thunk_stack@;
            let (event, thunk) = self.thunk_stack.pop().unwrap();
            proof {
                assert(before.drop_last() =~= self.thunk_stack@);
            }
            self.add_thunk(ctx, event, thunk);
        }
        ctx
    }
}

/// Appends a row holding only `v` to the rows of `ctx`, when `ctx` has rows.
fn push_one<T>(m: &mut CtxMap<Vec<Vec<T>>>, ctx: Ctx, v: T)
    requires
        old(m).inv(),
    ensures
        final(m).inv(),
        table(*old(m)).contains_key(ctx_key(ctx)) ==> table(*final(m)) == table(*old(m)).insert(
            ctx_key(ctx),
            table(*old(m))[ctx_key(ctx)].push(seq![v]),
        ),
        !table(*old(m)).contains_key(ctx_key(ctx)) ==> table(*final(m)) == table(*old(m)),
{
    let ghost old_t = table(*m);
    if let Some(mut rows_) = m.remove(&ctx) {
        let ghost r0 = rows(rows_);
        let mut row: Vec<T> = Vec::new();
        row.push(v);
        proof {
            assert(row@ =~= seq![v]);
        }
        rows_.push(row);
        proof {
            assert(rows(rows_) =~= r0.push(seq![v]));
        }
        m.insert(ctx, rows_);
        proof {
            assert(table(*m) =~= old_t.insert(ctx_key(ctx), r0.push(seq![v])));
        }
    } else {
        proof {
            assert(table(*m) =~= old_t);
        }
    }
}

/// The number of rows of `ctx` in a table, none when it has no rows.
fn row_count<T>(m: &CtxMap<Vec<Vec<T>>>, ctx: Ctx) -> (r: usize)
    requires
        m.inv(),
    ensures
        r == rows_or_empty(table(*m), ctx).len(),
{
    match m.get(&ctx) {
        Some(v) => v.len(),
        None => 0,
    }
}

impl State {
    /// The program rows of `ctx`, when it has some.
    pub fn programs(&self, ctx: Ctx) -> (r: Option<Vec<Vec<Prog>>>)
        requires
            self.wf(),
        ensures
            r matches Some(v) ==> self.spec_programs().contains_key(ctx_key(ctx)) && rows(v) == self.spec_programs()[ctx_key(ctx)],
            r is None ==> !self.spec_programs().contains_key(ctx_key(ctx)),
    {
        get_rows(&self.programs_, &ctx)
    }

    /// The register rows of `ctx`, when it has some.
    pub fn registers(&self, ctx: Ctx) -> (r: Option<Vec<Vec<Register>>>)
        requires
            self.wf(),
        ensures
            r matches Some(v) ==> self.spec_registers().contains_key(ctx_key(ctx)) && rows(v) == self.spec_registers()[ctx_key(ctx)],
            r is None ==> !self.spec_registers().contains_key(ctx_key(ctx)),
    {
        get_rows(&self.registers_, &ctx)
    }

    /// The pitch-class rows of `ctx`, when it has some.
    pub fn pcs(&self, ctx: Ctx) -> (r: Option<Vec<Vec<Pc>>>)
        requires
            self.wf(),
        ensures
            r matches Some(v) ==> self.spec_pcs().contains_key(ctx_key(ctx)) && rows(v) == self.spec_pcs()[ctx_key(ctx)],
            r is None ==> !self.spec_pcs().contains_key(ctx_key(ctx)),
    {
        get_rows(&self.pcs_, &ctx)
    }

    /// The length rows of `ctx`, when it has some.
    pub fn lengths(&self, ctx: Ctx) -> (r: Option<Vec<Vec<Length>>>)
        requires
            self.wf(),
        ensures
            r matches Some(v) ==> self.spec_lengths().contains_key(ctx_key(ctx)) && rows(v) == self.spec_lengths()[ctx_key(ctx)],
            r is None ==> !self.spec_lengths().contains_key(ctx_key(ctx)),
    {
        get_rows(&self.lengths_, &ctx)
    }

    /// The velocity rows of `ctx`, when it has some.
    pub fn velocities(&self, ctx: Ctx) -> (r: Option<Vec<Vec<Velocity>>>)
        requires
            self.wf(),
        ensures
            r matches Some(v) ==> self.spec_velocities().contains_key(ctx_key(ctx)) && rows(v) == self.spec_velocities()[ctx_key(ctx)],
            r is None ==> !self.spec_velocities().contains_key(ctx_key(ctx)),
    {
        get_rows(&self.velocities_, &ctx)
    }

    /// The tempo rows of `ctx`, when it has some.
    pub fn tempos(&self, ctx: Ctx) -> (r: Option<Vec<Vec<Mpb>>>)
        requires
            self.wf(),
        ensures
            r matches Some(v) ==> self.spec_tempos().contains_key(ctx_key(ctx)) && rows(v) == self.spec_tempos()[ctx_key(ctx)],
            r is None ==> !self.spec_tempos().contains_key(ctx_key(ctx)),
    {
        get_rows(&self.tempos_, &ctx)
    }

    /// Appends a row of one program to the program rows of `ctx`; the rows
    /// already there stay as they are. Nothing happens when `ctx` has no rows.
    pub fn add_program(&mut self, ctx: Ctx, program: Prog)
        requires
            old(self).wf(),
        ensures
            final(self).wf(),
            old(self).spec_programs().contains_key(ctx_key(ctx)) ==> final(self).spec_programs() == old(self).spec_programs().insert(
                ctx_key(ctx),
                old(self).spec_programs()[ctx_key(ctx)].push(seq![program]),
            ),
            !old(self).spec_programs().contains_key(ctx_key(ctx)) ==> final(self).spec_programs() == old(self).spec_programs(),
            final(self).spec_registers() == old(self).spec_registers(),
            final(self).spec_pcs() == old(self).spec_pcs(),
            final(self).spec_lengths() == old(self).spec_lengths(),
            final(self).spec_velocities() == old(self).spec_velocities(),
            final(self).spec_tempos() == old(self).spec_tempos(),
            final(self).same_tree(old(self)),
            final(self).same_reader(old(self)),
            final(self).same_rest(old(self)),
    {
        push_one(&mut self.programs_, ctx, program);
    }

    /// Appends a row of one length to the length rows of `ctx`; the rows
    /// already there stay as they are. Nothing happens when `ctx` has no rows.
    pub fn add_length(&mut self, ctx: Ctx, length: Length)
        requires
            old(self).wf(),
        ensures
            final(self).wf(),
            old(self).spec_lengths().contains_key(ctx_key(ctx)) ==> final(self).spec_lengths() == old(self).spec_lengths().insert(
                ctx_key(ctx),
                old(self).spec_lengths()[ctx_key(ctx)].push(seq![length]),
            ),
            !old(self).spec_lengths().contains_key(ctx_key(ctx)) ==> final(self).spec_lengths() == old(self).spec_lengths(),
            final(self).spec_programs() == old(self).spec_programs(),
            final(self).spec_registers() == old(self).spec_registers(),
            final(self).spec_pcs() == old(self).spec_pcs(),
            final(self).spec_velocities() == old(self).spec_velocities(),
            final(self).spec_tempos() == old(self).spec_tempos(),
            final(self).same_tree(old(self)),
            final(self).same_reader(old(self)),
            final(self).same_rest(old(self)),
    {
        push_one(&mut self.lengths_, ctx, length);
    }

    /// Appends a row of one tempo to the tempo rows of `ctx`; the rows
    /// already there stay as they are. Nothing happens when `ctx` has no rows.
    pub fn add_tempo(&mut self, ctx: Ctx, tempo: Mpb)
        requires
            old(self).wf(),
        ensures
            final(self).wf(),
            old(self).spec_tempos().contains_key(ctx_key(ctx)) ==> final(self).spec_tempos() == old(self).spec_tempos().insert(
                ctx_key(ctx),
                old(self).spec_tempos()[ctx_key(ctx)].push(seq![tempo]),
            ),
            !old(self).spec_tempos().contains_key(ctx_key(ctx)) ==> final(self).spec_tempos() == old(self).spec_tempos(),
            final(self).spec_programs() == old(self).spec_programs(),
            final(self).spec_registers() == old(self).spec_registers(),
            final(self).spec_pcs() == old(self).spec_pcs(),
            final(self).spec_lengths() == old(self).spec_lengths(),
            final(self).spec_velocities() == old(self).spec_velocities(),
            final(self).same_tree(old(self)),
            final(self).same_reader(old(self)),
            final(self).same_rest(old(self)),
    {
        push_one(&mut self.tempos_, ctx, tempo);
    }

    /// Adds a row of one register, when `ctx` has register rows.
    pub fn add_register(&mut self, ctx: Ctx, register: Register)
        requires
            old(self).wf(),
        ensures
            final(self).wf(),
            old(self).spec_registers().contains_key(ctx_key(ctx)) ==> final(self).spec_registers() == old(self).spec_registers().insert(
                ctx_key(ctx),
                old(self).spec_registers()[ctx_key(ctx)].push(seq![register]),
            ),
            !old(self).spec_registers().contains_key(ctx_key(ctx)) ==> final(self).spec_registers() == old(self).spec_registers(),
            final(self).spec_programs() == old(self).spec_programs(),
            final(self).spec_pcs() == old(self).spec_pcs(),
            final(self).spec_lengths() == old(self).spec_lengths(),
            final(self).spec_velocities() == old(self).spec_velocities(),
            final(self).spec_tempos() == old(self).spec_tempos(),
            final(self).same_tree(old(self)),
            final(self).same_reader(old(self)),
            final(self).same_rest(old(self)),
    {
        let row = vec![register];
        proof { assert(row@ =~= seq![register]); }
        push_row_if_present(&mut self.registers_, ctx, row);
    }

    /// Adds a row of one pitch class, when `ctx` has pitch rows.
    pub fn add_pc(&mut self, ctx: Ctx, pc: Pc)
        requires
            old(self).wf(),
        ensures
            final(self).wf(),
            old(self).spec_pcs().contains_key(ctx_key(ctx)) ==> final(self).spec_pcs() == old(self).spec_pcs().insert(
                ctx_key(ctx),
                old(self).spec_pcs()[ctx_key(ctx)].push(seq![pc]),
            ),
            !old(self).spec_pcs().contains_key(ctx_key(ctx)) ==> final(self).spec_pcs() == old(self).spec_pcs(),
            final(self).spec_programs() == old(self).spec_programs(),
            final(self).spec_registers() == old(self).spec_registers(),
            final(self).spec_lengths() == old(self).spec_lengths(),
            final(self).spec_velocities() == old(self).spec_velocities(),
            final(self).spec_tempos() == old(self).spec_tempos(),
            final(self).same_tree(old(self)),
            final(self).same_reader(old(self)),
            final(self).same_rest(old(self)),
    {
        let row = vec![pc];
        proof { assert(row@ =~= seq![pc]); }
        push_row_if_present(&mut self.pcs_, ctx, row);
    }

    /// Adds a row of programs to `ctx`, giving it rows when it has none.
    pub fn add_programs(&mut self, ctx: Ctx, programs: Vec<Prog>)
        requires
            old(self).wf(),
        ensures
            final(self).wf(),
            final(self).spec_programs() == old(self).spec_programs().insert(ctx_key(ctx), rows_or_empty(old(self).spec_programs(), ctx).push(programs@)),
            final(self).spec_registers() == old(self).spec_registers(),
            final(self).spec_pcs() == old(self).spec_pcs(),
            final(self).spec_lengths() == old(self).spec_lengths(),
            final(self).spec_velocities() == old(self).spec_velocities(),
            final(self).spec_tempos() == old(self).spec_tempos(),
            final(self).same_tree(old(self)),
            final(self).same_reader(old(self)),
            final(self).same_rest(old(self)),
    {
        push_row(&mut self.programs_, ctx, programs);
    }

    /// Adds a row of registers to `ctx`, giving it rows when it has none.
    pub fn add_registers(&mut self, ctx: Ctx, registers: Vec<Register>)
        requires
            old(self).wf(),
        ensures
            final(self).wf(),
            final(self).spec_registers() == old(self).spec_registers().insert(ctx_key(ctx), rows_or_empty(old(self).spec_registers(), ctx).push(registers@)),
            final(self).spec_programs() == old(self).spec_programs(),
            final(self).spec_pcs() == old(self).spec_pcs(),
            final(self).spec_lengths() == old(self).spec_lengths(),
            final(self).spec_velocities() == old(self).spec_velocities(),
            final(self).spec_tempos() == old(self).spec_tempos(),
            final(self).same_tree(old(self)),
            final(self).same_reader(old(self)),
            final(self).same_rest(old(self)),
    {
        push_row(&mut self.registers_, ctx, registers);
    }

    /// Adds a row of pitch classes to `ctx`, giving it rows when it has none.
    pub fn add_pcs(&mut self, ctx: Ctx, pcs: Vec<Pc>)
        requires
            old(self).wf(),
        ensures
            final(self).wf(),
            final(self).spec_pcs() == old(self).spec_pcs().insert(ctx_key(ctx), rows_or_empty(old(self).spec_pcs(), ctx).push(pcs@)),
            final(self).spec_programs() == old(self).spec_programs(),
            final(self).spec_registers() == old(self).spec_registers(),
            final(self).spec_lengths() == old(self).spec_lengths(),
            final(self).spec_velocities() == old(self).spec_velocities(),
            final(self).spec_tempos() == old(self).spec_tempos(),
            final(self).same_tree(old(self)),
            final(self).same_reader(old(self)),
            final(self).same_rest(old(self)),
    {
        push_row(&mut self.pcs_, ctx, pcs);
    }

    /// Adds a row of velocities to `ctx`, giving it rows when it has none.
    pub fn add_velocities(&mut self, ctx: Ctx, velocities: Vec<Velocity>)
        requires
            old(self).wf(),
        ensures
            final(self).wf(),
            final(self).spec_velocities() == old(self).spec_velocities().insert(ctx_key(ctx), rows_or_empty(old(self).spec_velocities(), ctx).push(velocities@)),
            final(self).spec_programs() == old(self).spec_programs(),
            final(self).spec_registers() == old(self).spec_registers(),
            final(self).spec_pcs() == old(self).spec_pcs(),
            final(self).spec_lengths() == old(self).spec_lengths(),
            final(self).spec_tempos() == old(self).spec_tempos(),
            final(self).same_tree(old(self)),
            final(self).same_reader(old(self)),
            final(self).same_rest(old(self)),
    {
        push_row(&mut self.velocities_, ctx, velocities);
    }

    /// Adds a row of lengths to `ctx`, giving it rows when it has none.
    pub fn add_lengths(&mut self, ctx: Ctx, lengths: Vec<Length>)
        requires
            old(self).wf(),
        ensures
            final(self).wf(),
            final(self).spec_lengths() == old(self).spec_lengths().insert(ctx_key(ctx), rows_or_empty(old(self).spec_lengths(), ctx).push(lengths@)),
            final(self).spec_programs() == old(self).spec_programs(),
            final(self).spec_registers() == old(self).spec_registers(),
            final(self).spec_pcs() == old(self).spec_pcs(),
            final(self).spec_velocities() == old(self).spec_velocities(),
            final(self).spec_tempos() == old(self).spec_tempos(),
            final(self).same_tree(old(self)),
            final(self).same_reader(old(self)),
            final(self).same_rest(old(self)),
    {
        push_row(&mut self.lengths_, ctx, lengths);
    }

    /// Adds a row of tempi to `ctx`; when it has no rows it gets this one
    /// row with each tempo rounded down to a multiple of 128 microseconds.
    pub fn add_tempos(&mut self, ctx: Ctx, tempos: Vec<Mpb>)
        requires
            old(self).wf(),
        ensures
            final(self).wf(),
            final(self).spec_tempos() == tempos_added(old(self).spec_tempos(), ctx, tempos@),
            final(self).spec_programs() == old(self).spec_programs(),
            final(self).spec_registers() == old(self).spec_registers(),
            final(self).spec_pcs() == old(self).spec_pcs(),
            final(self).spec_lengths() == old(self).spec_lengths(),
            final(self).spec_velocities() == old(self).spec_velocities(),
            final(self).same_tree(old(self)),
            final(self).same_reader(old(self)),
            final(self).same_rest(old(self)),
    {
        if self.tempos_.contains(&ctx) {
            push_row(&mut self.tempos_, ctx, tempos);
        } else {
            let mut rounded: Vec<Mpb> = Vec::new();
            let mut i: usize = 0;
            while i < tempos.len()
                invariant
                    i <= tempos@.len(),
                    rounded@ == floored_128(tempos@.take(i as int)),
                decreases tempos@.len() - i,
            {
                rounded.push(tempos[i].floor_128());
                proof {
                    assert(tempos@.take(i + 1) =~= tempos@.take(i as int).push(tempos@[i as int]));
                }
                i = i + 1;
            }
            proof {
                assert(tempos@.take(tempos@.len() as int) =~= tempos@);
                assert(rows_or_empty(table(self.tempos_), ctx) =~= Seq::empty());
            }
            push_row(&mut self.tempos_, ctx, rounded);
        }
    }

    /// Replaces the velocity rows of `ctx`, when it has some.
    pub fn set_velocities(&mut self, ctx: Ctx, velocities: Vec<Vec<Velocity>>)
        requires
            old(self).wf(),
        ensures
            final(self).wf(),
            old(self).spec_velocities().contains_key(ctx_key(ctx)) ==> final(self).spec_velocities() == old(self).spec_velocities().insert(ctx_key(ctx), rows(velocities)),
            !old(self).spec_velocities().contains_key(ctx_key(ctx)) ==> final(self).spec_velocities() == old(self).spec_velocities(),
            final(self).spec_programs() == old(self).spec_programs(),
            final(self).spec_registers() == old(self).spec_registers(),
            final(self).spec_pcs() == old(self).spec_pcs(),
            final(self).spec_lengths() == old(self).spec_lengths(),
            final(self).spec_tempos() == old(self).spec_tempos(),
            final(self).same_tree(old(self)),
            final(self).same_reader(old(self)),
            final(self).same_rest(old(self)),
    {
        set_rows_if_present(&mut self.velocities_, ctx, velocities);
    }

    /// Replaces the length rows of `ctx`, when it has some.
    pub fn set_lengths(&mut self, ctx: Ctx, lengths: Vec<Vec<Length>>)
        requires
            old(self).wf(),
        ensures
            final(self).wf(),
            old(self).spec_lengths().contains_key(ctx_key(ctx)) ==> final(self).spec_lengths() == old(self).spec_lengths().insert(ctx_key(ctx), rows(lengths)),
            !old(self).spec_lengths().contains_key(ctx_key(ctx)) ==> final(self).spec_lengths() == old(self).spec_lengths(),
            final(self).spec_programs() == old(self).spec_programs(),
            final(self).spec_registers() == old(self).spec_registers(),
            final(self).spec_pcs() == old(self).spec_pcs(),
            final(self).spec_velocities() == old(self).spec_velocities(),
            final(self).spec_tempos() == old(self).spec_tempos(),
            final(self).same_tree(old(self)),
            final(self).same_reader(old(self)),
            final(self).same_rest(old(self)),
    {
        set_rows_if_present(&mut self.lengths_, ctx, lengths);
    }

    /// The velocity set last, if any.
    pub fn velocity(&self) -> (r: Option<Vec<Velocity>>)
        ensures
            r matches Some(v) ==> self.spec_velocity() == Some(v@),
            r is None ==> self.spec_velocity() is None,
    {
        match &self.velocity {
            Some(v) => Some(v.clone()),
            None => None,
        }
    }

    /// Sets the current velocity.
    pub fn set_velocity(&mut self, velocity: Velocity)
        ensures
            final(self).wf() == old(self).wf(),
            final(self).spec_velocity() == Some(seq![velocity]),
            final(self).same_tree(old(self)),
            final(self).same_reader(old(self)),
            final(self).same_params(old(self)),
            final(self).spec_tempo() == old(self).spec_tempo(),
            final(self).spec_bindings() == old(self).spec_bindings(),
            final(self).spec_instruments() == old(self).spec_instruments(),
            final(self).spec_timeline() == old(self).spec_timeline(),
            final(self).spec_playhead() == old(self).spec_playhead(),
            final(self).spec_thunks() == old(self).spec_thunks(),
            final(self).spec_thunk_stack() == old(self).spec_thunk_stack(),
    {
        let v = vec![velocity];
        proof { assert(v@ =~= seq![velocity]); }
        self.velocity = Some(v);
    }

    /// The global tempo.
    pub fn tempo(&self) -> (r: Mpb)
        ensures
            r == self.spec_tempo(),
    {
        self.tempo
    }

    /// Sets the global tempo.
    pub fn set_tempo(&mut self, tempo: Mpb)
        ensures
            final(self).wf() == old(self).wf(),
            final(self).spec_tempo() == tempo,
            final(self).same_tree(old(self)),
            final(self).same_reader(old(self)),
            final(self).same_params(old(self)),
            final(self).spec_velocity() == old(self).spec_velocity(),
            final(self).spec_bindings() == old(self).spec_bindings(),
            final(self).spec_instruments() == old(self).spec_instruments(),
            final(self).spec_timeline() == old(self).spec_timeline(),
            final(self).spec_playhead() == old(self).spec_playhead(),
            final(self).spec_thunks() == old(self).spec_thunks(),
            final(self).spec_thunk_stack() == old(self).spec_thunk_stack(),
    {
        self.tempo = tempo;
    }

    /// Sets the global tempo to `bpm` beats per minute.
    pub fn set_bpm(&mut self, bpm: Absolute)
        requires
            tempo_computable(bpm),
        ensures
            final(self).wf() == old(self).wf(),
            final(self).spec_tempo().0.wf(),
            final(self).spec_tempo().0.is_quotient_of(Fraction { numer: 60_000_000, denom: 1 }, bpm.spec_fraction()),
            final(self).same_tree(old(self)),
            final(self).same_reader(old(self)),
            final(self).same_params(old(self)),
            final(self).spec_velocity() == old(self).spec_velocity(),
            final(self).spec_bindings() == old(self).spec_bindings(),
            final(self).spec_instruments() == old(self).spec_instruments(),
            final(self).spec_timeline() == old(self).spec_timeline(),
            final(self).spec_playhead() == old(self).spec_playhead(),
            final(self).spec_thunks() == old(self).spec_thunks(),
            final(self).spec_thunk_stack() == old(self).spec_thunk_stack(),
    {
        self.tempo = Mpb::from_bpm(bpm);
    }

    /// The instruments named so far, by program.
    pub fn instruments(&self) -> (r: &KeyMap<Prog, Vec<u8>>)
        ensures
            r@.map_values(|v: Vec<u8>| v@) == self.spec_instruments(),
            self.wf() ==> r.inv(),
    {
        &self.instruments
    }

    /// The playhead: where the next sequence starts.
    pub fn playhead(&self) -> (r: Length)
        ensures
            r == self.spec_playhead(),
    {
        self.playhead
    }
}

/// Merges the rows of `ctx` into one row, when it has rows.
fn flatten_rows_if_present<T>(m: &mut CtxMap<Vec<Vec<T>>>, ctx: Ctx)
    requires
        old(m).inv(),
    ensures
        final(m).inv(),
        table(*final(m)) == flattened(table(*old(m)), ctx),
{
    let ghost old_t = table(*m);
    if let Some(mut v) = m.remove(&ctx) {
        let ghost r0 = rows(v);
        flatten(&mut v);
        proof {
            assert(rows(v) =~= flat_rows(r0));
        }
        m.insert(ctx, v);
        proof {
            assert(table(*m) =~= flattened(old_t, ctx));
        }
    } else {
        proof {
            assert(table(*m) =~= flattened(old_t, ctx));
        }
    }
}

/// Empties the rows of `ctx`, when it has rows.
fn clear_rows_if_present<T>(m: &mut CtxMap<Vec<Vec<T>>>, ctx: Ctx)
    requires
        old(m).inv(),
    ensures
        final(m).inv(),
        table(*final(m)) == cleared(table(*old(m)), ctx),
{
    let e: Vec<Vec<T>> = Vec::new();
    proof {
        assert(rows(e) =~= Seq::<Seq<T>>::empty());
    }
    set_rows_if_present(m, ctx, e);
}

impl State {
    /// Binds `ident` to `exp` in `ctx`. When `ctx` already has bindings and
    /// `exp` is a program, the program is also named `ident`.
    pub fn add_binding(&mut self, ctx: Ctx, ident: Ident, exp: Exp)
        requires
            old(self).wf(),
        ensures
            final(self).wf(),
            final(self).spec_bindings() == old(self).spec_bindings().insert(
                ctx_key(ctx),
                (if old(self).spec_bindings().contains_key(ctx_key(ctx)) {
                    old(self).spec_bindings()[ctx_key(ctx)]
                } else {
                    Map::empty()
                }).insert(ident_key(ident), exp@),
            ),
            old(self).spec_bindings().contains_key(ctx_key(ctx)) && program_of(exp) is Some
                ==> final(self).spec_instruments() == old(self).spec_instruments().insert(
                seq![program_of(exp)->0 as int],
                vstd::utf8::encode_utf8(ident.0@),
            ),
            !(old(self).spec_bindings().contains_key(ctx_key(ctx)) && program_of(exp) is Some)
                ==> final(self).spec_instruments() == old(self).spec_instruments(),
            final(self).same_tree(old(self)),
            final(self).same_reader(old(self)),
            final(self).same_params(old(self)),
            final(self).spec_velocity() == old(self).spec_velocity(),
            final(self).spec_tempo() == old(self).spec_tempo(),
            final(self).spec_timeline() == old(self).spec_timeline(),
            final(self).spec_playhead() == old(self).spec_playhead(),
            final(self).spec_thunks() == old(self).spec_thunks(),
            final(self).spec_thunk_stack() == old(self).spec_thunk_stack(),
    {
        let ghost old_b = self.spec_bindings();
        let ghost old_raw = self.bindings@;
        let ghost old_i = self.spec_instruments();
        if self.bindings.contains(&ctx) {
            if let Exp::Simple(Simple::Scalar(Scalar::Prog(prog))) = &exp {
                let bytes = ident.0.as_str().as_bytes();
                let mut name: Vec<u8> = Vec::new();
                let mut i: usize = 0;
                while i < bytes.len()
                    invariant
                        i <= bytes@.len(),
                        name@ == bytes@.take(i as int),
                    decreases bytes@.len() - i,
                {
                    name.push(bytes[i]);
                    proof {
                        assert(bytes@.take(i + 1) =~= bytes@.take(i as int).push(bytes@[i as int]));
                    }
                    i = i + 1;
                }
                proof {
                    assert(bytes@.take(bytes@.len() as int) =~= bytes@);
                }
                self.instruments.insert(*prog, name);
                proof {
                    assert(self.spec_instruments() =~= old_i.insert(seq![prog.0 as int], vstd::utf8::encode_utf8(ident.0@)));
                }
            }
            let mut b = match self.bindings.remove(&ctx) {
                Some(b) => b,
                None => KeyMap::new(),
            };
            proof {
                assert(b.inv());
            }
            let ghost b0 = b@;
            b.insert(ident, exp);
            self.bindings.insert(ctx, b);
            proof {
                assert(b@.map_values(|e: Exp| view_exp(e)) =~= old_b[ctx_key(ctx)].insert(ident_key(ident), exp@));
                assert(self.spec_bindings() =~= old_b.insert(ctx_key(ctx), old_b[ctx_key(ctx)].insert(ident_key(ident), exp@)));
                assert forall|k: Seq<int>| #[trigger] self.bindings@.contains_key(k) implies self.bindings@[k].inv() by {
                    if k != ctx_key(ctx) {
                        assert(old_raw.contains_key(k));
                    }
                }
            }
        } else {
            let mut b: KeyMap<Ident, Exp> = KeyMap::new();
            b.insert(ident, exp);
            self.bindings.insert(ctx, b);
            proof {
                assert(b@.map_values(|e: Exp| view_exp(e)) =~= Map::<Seq<int>, ExpV>::empty().insert(ident_key(ident), exp@));
                assert(self.spec_bindings() =~= old_b.insert(ctx_key(ctx), Map::<Seq<int>, ExpV>::empty().insert(ident_key(ident), exp@)));
                assert forall|k: Seq<int>| #[trigger] self.bindings@.contains_key(k) implies self.bindings@[k].inv() by {
                    if k != ctx_key(ctx) {
                        assert(old_raw.contains_key(k));
                    }
                }
            }
        }
    }
}

impl State {
    /// The binding of `ident` seen from `ctx`, searching its ancestors;
    /// `None` when no context up to the root binds it, or binds it to nothing.
    pub fn binding(&self, ctx: Ctx, ident: &Ident) -> (r: Option<Exp>)
        requires
            self.wf(),
        ensures
            r matches Some(e) ==> self.lookup(ctx, *ident) == Some(e@) && !(e@ is Noop),
            r is None ==> self.lookup(ctx, *ident) is None || self.lookup(ctx, *ident) == Some(ExpV::Noop),
    {
        let mut c = ctx;
        while c != Ctx::Nothing
            invariant
                self.wf(),
                self.lookup(c, *ident) == self.lookup(ctx, *ident),
            decreases rank(c),
        {
            match self.bindings.get(&c) {
                Some(b) => {
                    proof {
                        assert(self.spec_bindings().contains_key(ctx_key(c)));
                        assert(self.bindings@.contains_key(ctx_key(c)));
                    }
                    match b.get(ident) {
                        Some(e) => {
                            if let Exp::Noop = e {
                                return None;
                            }
                            return Some(clone_exp(e));
                        },
                        None => {},
                    }
                },
                None => {},
            }
            c = self.parent(c);
        }
        None
    }

    /// Removes `ctx`: its parameters, bindings, children, actions and links,
    /// and drops it from the children of its parent.
    pub fn drop(&mut self, ctx: Ctx)
        requires
            old(self).wf(),
        ensures
            final(self).wf(),
            final(self).spec_programs() == old(self).spec_programs().remove(ctx_key(ctx)),
            final(self).spec_registers() == old(self).spec_registers().remove(ctx_key(ctx)),
            final(self).spec_pcs() == old(self).spec_pcs().remove(ctx_key(ctx)),
            final(self).spec_lengths() == old(self).spec_lengths().remove(ctx_key(ctx)),
            final(self).spec_velocities() == old(self).spec_velocities().remove(ctx_key(ctx)),
            final(self).spec_tempos() == old(self).spec_tempos().remove(ctx_key(ctx)),
            final(self).spec_bindings() == old(self).spec_bindings().remove(ctx_key(ctx)),
            final(self).spec_thunks() == old(self).spec_thunks().remove(ctx_key(ctx)),
            final(self).spec_parents() == old(self).spec_parents().remove(ctx_key(ctx)),
            final(self).spec_ctxs() == old(self).spec_ctxs().remove(ctx_key(ctx)),
            final(self).spec_children() == ({
                let c1 = old(self).spec_children().remove(ctx_key(ctx));
                let p = old(self).parent_of(ctx);
                if c1.contains_key(ctx_key(p)) {
                    c1.insert(ctx_key(p), without_ctx(c1[ctx_key(p)], ctx))
                } else {
                    c1
                }
            }),
            final(self).spec_ctx_count() == old(self).spec_ctx_count(),
            final(self).spec_scopes() == old(self).spec_scopes(),
            final(self).spec_layers() == old(self).spec_layers(),
            final(self).same_reader(old(self)),
            final(self).spec_velocity() == old(self).spec_velocity(),
            final(self).spec_tempo() == old(self).spec_tempo(),
            final(self).spec_instruments() == old(self).spec_instruments(),
            final(self).spec_timeline() == old(self).spec_timeline(),
            final(self).spec_playhead() == old(self).spec_playhead(),
            final(self).spec_thunk_stack() == old(self).spec_thunk_stack(),
    {
        let ghost old_b = self.spec_bindings();
        let ghost old_braw = self.bindings@;
        let _ = self.bindings.remove(&ctx);
        proof {
            assert(self.spec_bindings() =~= old_b.remove(ctx_key(ctx)));
            assert forall|k: Seq<int>| #[trigger] self.bindings@.contains_key(k) implies self.bindings@[k].inv() by {
                assert(old_braw.contains_key(k));
            }
        }
        remove_rows(&mut self.tempos_, &ctx);
        remove_rows(&mut self.velocities_, &ctx);
        remove_rows(&mut self.lengths_, &ctx);
        remove_rows(&mut self.pcs_, &ctx);
        remove_rows(&mut self.registers_, &ctx);
        remove_rows(&mut self.programs_, &ctx);
        let ghost old_children = self.spec_children();
        let ghost parents0 = self.spec_parents();
        let _ = self.children.remove(&ctx);
        proof {
            assert(self.spec_children() =~= old_children.remove(ctx_key(ctx)));
            assert forall|p: Ctx, i: int| 0 <= i < children_or_empty(old_children.remove(ctx_key(ctx)), p).len() implies rank(
                #[trigger] children_or_empty(old_children.remove(ctx_key(ctx)), p)[i],
            ) > rank(p) by {
                assert(children_or_empty(old_children.remove(ctx_key(ctx)), p)[i] == children_or_empty(old_children, p)[i]);
            }
        }
        let parent = self.parent(ctx);
        let ghost c1 = self.spec_children();
        if self.children.contains(&parent) {
            let list = self.children(parent);
            let mut kept: Vec<Ctx> = Vec::new();
            let mut i: usize = 0;
            while i < list.len()
                invariant
                    i <= list@.len(),
                    kept@ == without_ctx(list@.take(i as int), ctx),
                decreases list@.len() - i,
            {
                proof {
                    assert(list@.take(i + 1).drop_last() =~= list@.take(i as int));
                }
                if list[i] != ctx {
                    kept.push(list[i]);
                }
                i = i + 1;
            }
            proof {
                assert(list@.take(list@.len() as int) =~= list@);
                lemma_without_ctx_ranks(list@, ctx, rank(parent));
            }
            self.children.insert(parent, kept);
            proof {
                assert(self.spec_children() =~= c1.insert(ctx_key(parent), without_ctx(c1[ctx_key(parent)], ctx)));
                lemma_ranked_shrink(c1, parents0, parent, without_ctx(c1[ctx_key(parent)], ctx));
            }
        }
        let ghost old_t = self.spec_thunks();
        let ghost old_traw = self.thunks@;
        let _ = self.thunks.remove(&ctx);
        proof {
            assert(self.spec_thunks() =~= old_t.remove(ctx_key(ctx)));
            assert forall|k: Seq<int>| #[trigger] self.thunks@.contains_key(k) implies self.thunks@[k].inv() by {
                assert(old_traw.contains_key(k));
            }
        }
        let ghost c2 = self.spec_children();
        let _ = self.parents.remove(&ctx);
        proof {
            lemma_ranked_unparent(c2, parents0, ctx);
        }
        let _ = self.ctxs.remove(&ctx);
    }

    /// Empties every parameter of `ctx` that it has.
    pub fn clean_context(&mut self, ctx: Ctx)
        requires
            old(self).wf(),
        ensures
            final(self).wf(),
            final(self).spec_programs() == cleared(old(self).spec_programs(), ctx),
            final(self).spec_registers() == cleared(old(self).spec_registers(), ctx),
            final(self).spec_pcs() == cleared(old(self).spec_pcs(), ctx),
            final(self).spec_lengths() == cleared(old(self).spec_lengths(), ctx),
            final(self).spec_velocities() == cleared(old(self).spec_velocities(), ctx),
            final(self).spec_tempos() == cleared(old(self).spec_tempos(), ctx),
            final(self).same_tree(old(self)),
            final(self).same_reader(old(self)),
            final(self).same_rest(old(self)),
    {
        clear_rows_if_present(&mut self.programs_, ctx);
        clear_rows_if_present(&mut self.pcs_, ctx);
        clear_rows_if_present(&mut self.velocities_, ctx);
        clear_rows_if_present(&mut self.registers_, ctx);
        clear_rows_if_present(&mut self.lengths_, ctx);
        clear_rows_if_present(&mut self.tempos_, ctx);
    }

    /// Merges the rows of every parameter of `ctx` into one row.
    pub fn flatten_stack(&mut self, ctx: Ctx)
        requires
            old(self).wf(),
        ensures
            final(self).wf(),
            final(self).spec_programs() == flattened(old(self).spec_programs(), ctx),
            final(self).spec_registers() == flattened(old(self).spec_registers(), ctx),
            final(self).spec_pcs() == flattened(old(self).spec_pcs(), ctx),
            final(self).spec_lengths() == flattened(old(self).spec_lengths(), ctx),
            final(self).spec_velocities() == flattened(old(self).spec_velocities(), ctx),
            final(self).spec_tempos() == flattened(old(self).spec_tempos(), ctx),
            final(self).same_tree(old(self)),
            final(self).same_reader(old(self)),
            final(self).same_rest(old(self)),
    {
        flatten_rows_if_present(&mut self.programs_, ctx);
        flatten_rows_if_present(&mut self.pcs_, ctx);
        flatten_rows_if_present(&mut self.velocities_, ctx);
        flatten_rows_if_present(&mut self.registers_, ctx);
        flatten_rows_if_present(&mut self.tempos_, ctx);
        flatten_rows_if_present(&mut self.lengths_, ctx);
    }

    /// The largest number of rows among the pitches, lengths, velocities and
    /// registers of `ctx`.
    pub fn max_len(&self, ctx: Ctx) -> (r: usize)
        requires
            self.wf(),
        ensures
            r >= rows_or_empty(self.spec_pcs(), ctx).len(),
            r >= rows_or_empty(self.spec_lengths(), ctx).len(),
            r >= rows_or_empty(self.spec_velocities(), ctx).len(),
            r >= rows_or_empty(self.spec_registers(), ctx).len(),
            r == rows_or_empty(self.spec_pcs(), ctx).len() || r == rows_or_empty(self.spec_lengths(), ctx).len()
                || r == rows_or_empty(self.spec_velocities(), ctx).len() || r == rows_or_empty(self.spec_registers(), ctx).len(),
    {
        let a = row_count(&self.pcs_, ctx);
        let b = row_count(&self.lengths_, ctx);
        let c = row_count(&self.velocities_, ctx);
        let d = row_count(&self.registers_, ctx);
        let mut m = a;
        if b > m {
            m = b;
        }
        if c > m {
            m = c;
        }
        if d > m {
            m = d;
        }
        m
    }
}

/// Every context kept by `without_ctx` ranks above `r` when all of `s` do.
proof fn lemma_without_ctx_ranks(s: Seq<Ctx>, c: Ctx, r: int)
    requires
        forall|i: int| 0 <= i < s.len() ==> rank(#[trigger] s[i]) > r,
    ensures
        forall|i: int| 0 <= i < without_ctx(s, c).len() ==> rank(#[trigger] without_ctx(s, c)[i]) > r,
    decreases s.len(),
{
    if s.len() > 0 {
        lemma_without_ctx_ranks(s.drop_last(), c, r);
        let rest = without_ctx(s.drop_last(), c);
        assert forall|i: int| 0 <= i < without_ctx(s, c).len() implies rank(#[trigger] without_ctx(s, c)[i]) > r by {
            if i < rest.len() {
                assert(without_ctx(s, c)[i] == rest[i]);
            } else {
                assert(without_ctx(s, c)[i] == s.last());
            }
        }
    }
}

/// Extends the rows of `ctx` the way `State::extend` does.
fn extend_rows<T>(m: &mut CtxMap<Vec<Vec<T>>>, ctx: Ctx, ts: Vec<Vec<T>>)
    requires
        old(m).inv(),
    ensures
        final(m).inv(),
        table(*final(m)) == extended(table(*old(m)), ctx, rows(ts)),
{
    let ghost old_t = table(*m);
    if let Some(mut r) = m.remove(&ctx) {
        let ghost r0 = rows(r);
        if r.len() == 0 {
            m.insert(ctx, ts);
            proof {
                assert(table(*m) =~= extended(old_t, ctx, rows(ts)));
            }
        } else {
            let ghost t0 = rows(ts);
            let mut ts = ts;
            let mut out: Vec<Vec<T>> = Vec::new();
            let n = r.len();
            let mut i: usize = 0;
            while i < n
                invariant
                    n == r0.len(),
                    i <= n,
                    rows(out) == zip_extended(r0, t0).take(i as int),
                    rows(r) == r0.skip(i as int),
                    i <= t0.len() ==> rows(ts) == t0.skip(i as int),
                    i > t0.len() ==> ts@.len() == 0,
                decreases n - i,
            {
                proof {
                    assert(rows(r).len() == r@.len());
                    assert(r0.skip(i as int).len() == n - i);
                    assert(r@.len() > 0);
                    assert(rows(r)[0] == r@[0]@);
                }
                let ghost r_before = r@;
                let ghost rows_before = rows(r);
                let ghost out_before = out@;
                let ghost out_rows_before = rows(out);
                proof {
                    assert(out_rows_before.len() == out_before.len());
                    assert(out_before.len() == i);
                }
                let mut row = r.remove(0);
                proof {
                    assert(row@ == r0[i as int]);
                    assert forall|j: int| 0 <= j < r@.len() implies #[trigger] rows(r)[j] == r0.skip(i + 1)[j] by {
                        assert(r@[j] == r_before[j + 1]);
                        assert(rows_before[j + 1] == r_before[j + 1]@);
                        assert(rows_before[j + 1] == r0[i + j + 1]);
                    }
                    assert(rows(r) =~= r0.skip(i + 1));
                }
                if ts.len() > 0 {
                    let ghost ts_before = ts@;
                    let ghost ts_rows_before = rows(ts);
                    proof {
                        assert(i <= t0.len());
                        assert(ts_rows_before.len() == ts_before.len());
                        assert(ts_rows_before == t0.skip(i as int));
                        assert(ts_rows_before[0] == ts_before[0]@);
                    }
                    let mut t = ts.remove(0);
                    proof {
                        assert(t@ == t0[i as int]);
                        assert forall|j: int| 0 <= j < ts@.len() implies #[trigger] rows(ts)[j] == t0.skip(i + 1)[j] by {
                            assert(ts@[j] == ts_before[j + 1]);
                            assert(ts_rows_before[j + 1] == ts_before[j + 1]@);
                        }
                        assert(rows(ts) =~= t0.skip(i + 1));
                    }
                    row.append(&mut t);
                    proof {
                        assert(row@ == r0[i as int] + t0[i as int]);
                    }
                } else {
                    proof {
                        assert(i >= t0.len());
                    }
                }
                out.push(row);
                proof {
                    assert(out@ == out_before.push(row));
                    assert forall|j: int| 0 <= j < i + 1 implies #[trigger] rows(out)[j] == zip_extended(r0, t0).take(i + 1)[j] by {
                        if j < i {
                            assert(out@[j] == out_before[j]);
                            assert(out_rows_before[j] == out_before[j]@);
                        }
                    }
                    assert(rows(out) =~= zip_extended(r0, t0).take(i + 1));
                }
                i = i + 1;
            }
            proof {
                assert(zip_extended(r0, t0).take(n as int) =~= zip_extended(r0, t0));
            }
            m.insert(ctx, out);
            proof {
                assert(table(*m) =~= extended(old_t, ctx, t0));
            }
        }
    } else {
        proof {
            assert(table(*m) =~= old_t);
        }
    }
}

impl State {
    /// Extends the rows of `ctx` with `ts`: rows that are empty become `ts`;
    /// otherwise each row gets the row of `ts` at the same place appended,
    /// rows of `ts` beyond the last row of `ctx` are left out, and the number
    /// of rows stays the same. Nothing happens when `ctx` has no rows of that
    /// parameter.
    pub fn extend(&mut self, ctx: Ctx, ts: Rows)
        requires
            old(self).wf(),
        ensures
            final(self).wf(),
            final(self).spec_pcs() == (if ts.kind() == ParamKind::Pc { extended(old(self).spec_pcs(), ctx, ts.pcs()) } else { old(self).spec_pcs() }),
            final(self).spec_lengths() == (if ts.kind() == ParamKind::Length { extended(old(self).spec_lengths(), ctx, ts.lengths()) } else { old(self).spec_lengths() }),
            final(self).spec_velocities() == (if ts.kind() == ParamKind::Velocity { extended(old(self).spec_velocities(), ctx, ts.velocities()) } else { old(self).spec_velocities() }),
            final(self).spec_tempos() == (if ts.kind() == ParamKind::Tempo { extended(old(self).spec_tempos(), ctx, ts.tempos()) } else { old(self).spec_tempos() }),
            final(self).spec_registers() == (if ts.kind() == ParamKind::Register { extended(old(self).spec_registers(), ctx, ts.registers()) } else { old(self).spec_registers() }),
            final(self).spec_programs() == (if ts.kind() == ParamKind::Program { extended(old(self).spec_programs(), ctx, ts.programs()) } else { old(self).spec_programs() }),
            final(self).same_tree(old(self)),
            final(self).same_reader(old(self)),
            final(self).same_rest(old(self)),
    {
        match ts {
            Rows::Pc(v) => extend_rows(&mut self.pcs_, ctx, v),
            Rows::Length(v) => extend_rows(&mut self.lengths_, ctx, v),
            Rows::Velocity(v) => extend_rows(&mut self.velocities_, ctx, v),
            Rows::Tempo(v) => extend_rows(&mut self.tempos_, ctx, v),
            Rows::Register(v) => extend_rows(&mut self.registers_, ctx, v),
            Rows::Program(v) => extend_rows(&mut self.programs_, ctx, v),
        }
    }

    /// Adds a column of values to `ctx`: as a new row when its scope is a
    /// sequence, onto its rows when it is a stack.
    pub fn add(&mut self, ctx: Ctx, ts: Column)
        requires
            old(self).wf(),
            old(self).scope_of(ctx) == Scope::Sequence || old(self).scope_of(ctx) == Scope::Stack,
        ensures
            final(self).wf(),
            final(self).spec_pcs() == (if ts.kind() == ParamKind::Pc {
                if old(self).scope_of(ctx) == Scope::Sequence { row_added(old(self).spec_pcs(), ctx, ts.pcs()) } else { extended(old(self).spec_pcs(), ctx, seq![ts.pcs()]) }
            } else { old(self).spec_pcs() }),
            final(self).spec_lengths() == (if ts.kind() == ParamKind::Length {
                if old(self).scope_of(ctx) == Scope::Sequence { row_added(old(self).spec_lengths(), ctx, ts.lengths()) } else { extended(old(self).spec_lengths(), ctx, seq![ts.lengths()]) }
            } else { old(self).spec_lengths() }),
            final(self).spec_velocities() == (if ts.kind() == ParamKind::Velocity {
                if old(self).scope_of(ctx) == Scope::Sequence { row_added(old(self).spec_velocities(), ctx, ts.velocities()) } else { extended(old(self).spec_velocities(), ctx, seq![ts.velocities()]) }
            } else { old(self).spec_velocities() }),
            final(self).spec_tempos() == (if ts.kind() == ParamKind::Tempo {
                if old(self).scope_of(ctx) == Scope::Sequence { tempos_added(old(self).spec_tempos(), ctx, ts.tempos()) } else { extended(old(self).spec_tempos(), ctx, seq![ts.tempos()]) }
            } else { old(self).spec_tempos() }),
            final(self).spec_registers() == (if ts.kind() == ParamKind::Register {
                if old(self).scope_of(ctx) == Scope::Sequence { row_added(old(self).spec_registers(), ctx, ts.registers()) } else { extended(old(self).spec_registers(), ctx, seq![ts.registers()]) }
            } else { old(self).spec_registers() }),
            final(self).spec_programs() == (if ts.kind() == ParamKind::Program {
                if old(self).scope_of(ctx) == Scope::Sequence { row_added(old(self).spec_programs(), ctx, ts.programs()) } else { extended(old(self).spec_programs(), ctx, seq![ts.programs()]) }
            } else { old(self).spec_programs() }),
            final(self).same_tree(old(self)),
            final(self).same_reader(old(self)),
            final(self).same_rest(old(self)),
    {
        let scope = self.scope(ctx);
        if scope == Scope::Sequence {
            match ts {
                Column::Pc(v) => self.add_pcs(ctx, v),
                Column::Length(v) => self.add_lengths(ctx, v),
                Column::Velocity(v) => self.add_velocities(ctx, v),
                Column::Tempo(v) => self.add_tempos(ctx, v),
                Column::Register(v) => self.add_registers(ctx, v),
                Column::Program(v) => self.add_programs(ctx, v),
            }
        } else {
            let r = match ts {
                Column::Pc(v) => {
                    let ghost g = v@;
                    let r = vec![v];
                    proof { assert(rows(r) =~= seq![g]); }
                    Rows::Pc(r)
                },
                Column::Length(v) => {
                    let ghost g = v@;
                    let r = vec![v];
                    proof { assert(rows(r) =~= seq![g]); }
                    Rows::Length(r)
                },
                Column::Velocity(v) => {
                    let ghost g = v@;
                    let r = vec![v];
                    proof { assert(rows(r) =~= seq![g]); }
                    Rows::Velocity(r)
                },
                Column::Tempo(v) => {
                    let ghost g = v@;
                    let r = vec![v];
                    proof { assert(rows(r) =~= seq![g]); }
                    Rows::Tempo(r)
                },
                Column::Register(v) => {
                    let ghost g = v@;
                    let r = vec![v];
                    proof { assert(rows(r) =~= seq![g]); }
                    Rows::Register(r)
                },
                Column::Program(v) => {
                    let ghost g = v@;
                    let r = vec![v];
                    proof { assert(rows(r) =~= seq![g]); }
                    Rows::Program(r)
                },
            };
            self.extend(ctx, r);
        }
    }
}

impl State {
    /// The values of one parameter that `ctx` sees, searching up its ancestors.
    fn get_<T: Copy>(&self, m: &CtxMap<Vec<Vec<T>>>, ctx: Ctx, default: T) -> (r: Vec<T>)
        requires
            self.wf(),
            m.inv(),
            self.gettable(table(*m), ctx),
        ensures
            r@ == self.got(table(*m), ctx, default),
    {
        let ghost t = table(*m);
        let mut c = ctx;
        let mut found: Option<Vec<T>> = None;
        while c != Ctx::Nothing && found.is_none()
            invariant
                self.wf(),
                m.inv(),
                t == table(*m),
                found is None ==> self.found_row(t, c) == self.found_row(t, ctx),
                found matches Some(v) ==> self.found_row(t, ctx) == Some(v@),
            decreases rank(c), (if found is None { 1int } else { 0int }),
        {
            let ghost c0 = c;
            let mut advance = true;
            match m.get(&c) {
                Some(v) => {
                    if v.len() > 0 {
                        proof {
                            assert(rows(*v).len() == v@.len());
                            assert(rows(*v).last() == v@.last()@);
                            assert(t.contains_key(ctx_key(c)) && t[ctx_key(c)] == rows(*v));
                            assert(rank(c) > 0);
                            assert(self.found_row(t, c) == Some(rows(*v).last()));
                        }
                        found = Some(copy_row(&v[v.len() - 1]));
                        advance = false;
                    }
                },
                None => {},
            }
            if advance {
                c = self.parent(c);
                proof {
                    assert(rank(c0) > 0);
                    assert(rank(c) < rank(c0));
                    assert(self.found_row(t, c0) == self.found_row(t, c));
                }
            }
        }
        proof {
            if found is None {
                assert(c == Ctx::Nothing);
                assert(self.found_row(t, c) is None);
            }
        }
        match found {
            Some(row) => {
                let scope = self.scope(ctx);
                if scope == Scope::Sequence {
                    row
                } else if row.len() == 0 {
                    Vec::new()
                } else {
                    let v = vec![row[row.len() - 1]];
                    proof { assert(v@ =~= seq![row@.last()]); }
                    v
                }
            },
            None => {
                let v = vec![default];
                proof { assert(v@ =~= seq![default]); }
                v
            },
        }
    }

    /// The values of parameter `kind` that `ctx` sees: the last row of `ctx`
    /// or of its nearest ancestor with rows (only its last value when `ctx`
    /// is a stack), or the default value when none has rows.
    pub fn get(&self, ctx: Ctx, kind: ParamKind) -> (r: Column)
        requires
            self.wf(),
            kind == ParamKind::Pc ==> self.gettable(self.spec_pcs(), ctx),
            kind == ParamKind::Length ==> self.gettable(self.spec_lengths(), ctx),
            kind == ParamKind::Velocity ==> self.gettable(self.spec_velocities(), ctx),
            kind == ParamKind::Tempo ==> self.gettable(self.spec_tempos(), ctx),
            kind == ParamKind::Register ==> self.gettable(self.spec_registers(), ctx),
            kind == ParamKind::Program ==> self.gettable(self.spec_programs(), ctx),
        ensures
            r.kind() == kind,
            kind == ParamKind::Pc ==> r.pcs() == self.got(self.spec_pcs(), ctx, Pc::Nothing),
            kind == ParamKind::Length ==> r.lengths() == self.got(self.spec_lengths(), ctx, Length::MicroSeconds(Fraction { numer: 0, denom: 1 })),
            kind == ParamKind::Velocity ==> r.velocities() == self.got(self.spec_velocities(), ctx, Velocity(80)),
            kind == ParamKind::Tempo ==> r.tempos() == self.got(self.spec_tempos(), ctx, Mpb::default_spec()),
            kind == ParamKind::Register ==> r.registers() == self.got(self.spec_registers(), ctx, Register::Reg(4)),
            kind == ParamKind::Program ==> r.programs() == self.got(self.spec_programs(), ctx, Prog(0)),
    {
        match kind {
            ParamKind::Pc => Column::Pc(self.get_(&self.pcs_, ctx, Pc::Nothing)),
            ParamKind::Length => Column::Length(self.get_(&self.lengths_, ctx, Length::default())),
            ParamKind::Velocity => Column::Velocity(self.get_(&self.velocities_, ctx, Velocity::default())),
            ParamKind::Tempo => Column::Tempo(self.get_(&self.tempos_, ctx, Mpb::default())),
            ParamKind::Register => Column::Register(self.get_(&self.registers_, ctx, Register::default())),
            ParamKind::Program => Column::Program(self.get_(&self.programs_, ctx, Prog::default())),
        }
    }

    /// The last row of parameter `kind` of `ctx` itself, or one default value.
    pub fn get_last(&self, ctx: Ctx, kind: ParamKind) -> (r: Column)
        requires
            self.wf(),
        ensures
            r.kind() == kind,
            kind == ParamKind::Pc ==> r.pcs() == last_or(self.spec_pcs(), ctx, Pc::Nothing),
            kind == ParamKind::Length ==> r.lengths() == last_or(self.spec_lengths(), ctx, Length::MicroSeconds(Fraction { numer: 0, denom: 1 })),
            kind == ParamKind::Velocity ==> r.velocities() == last_or(self.spec_velocities(), ctx, Velocity(80)),
            kind == ParamKind::Tempo ==> r.tempos() == last_or(self.spec_tempos(), ctx, Mpb::default_spec()),
            kind == ParamKind::Register ==> r.registers() == last_or(self.spec_registers(), ctx, Register::Reg(4)),
            kind == ParamKind::Program ==> r.programs() == last_or(self.spec_programs(), ctx, Prog(0)),
    {
        match kind {
            ParamKind::Pc => Column::Pc(last_row_or(&self.pcs_, ctx, Pc::Nothing)),
            ParamKind::Length => Column::Length(last_row_or(&self.lengths_, ctx, Length::default())),
            ParamKind::Velocity => Column::Velocity(last_row_or(&self.velocities_, ctx, Velocity::default())),
            ParamKind::Tempo => Column::Tempo(last_row_or(&self.tempos_, ctx, Mpb::default())),
            ParamKind::Register => Column::Register(last_row_or(&self.registers_, ctx, Register::default())),
            ParamKind::Program => Column::Program(last_row_or(&self.programs_, ctx, Prog::default())),
        }
    }
}

/// The last row of `c` in a table, or one default value.
pub open spec fn last_or<T>(m: Map<Seq<int>, Seq<Seq<T>>>, c: Ctx, default: T) -> Seq<T> {
    if rows_or_empty(m, c).len() > 0 {
        rows_or_empty(m, c).last()
    } else {
        seq![default]
    }
}

fn last_row_or<T: Copy>(m: &CtxMap<Vec<Vec<T>>>, ctx: Ctx, default: T) -> (r: Vec<T>)
    requires
        m.inv(),
    ensures
        r@ == last_or(table(*m), ctx, default),
{
    match m.get(&ctx) {
        Some(v) => {
            if v.len() > 0 {
                proof {
                    assert(rows(*v).len() == v@.len());
                    assert(rows(*v).last() == v@.last()@);
                }
                return copy_row(&v[v.len() - 1]);
            }
        },
        None => {},
    }
    let v = vec![default];
    proof { assert(v@ =~= seq![default]); }
    v
}

/// The first `n` values of `v` repeated; nothing when `v` is empty.
fn cycle_take<T: Copy>(v: &Vec<T>, n: usize) -> (r: Vec<T>)
    ensures
        r@ == cycled(v@, n as int),
{
    let mut r: Vec<T> = Vec::new();
    if v.len() == 0 {
        proof { assert(r@ =~= cycled(v@, n as int)); }
        return r;
    }
    let mut i: usize = 0;
    while i < n
        invariant
            v@.len() > 0,
            i <= n,
            r@ == cycled(v@, n as int).take(i as int),
        decreases n - i,
    {
        r.push(v[i % v.len()]);
        proof {
            assert(r@ =~= cycled(v@, n as int).take(i + 1));
        }
        i = i + 1;
    }
    proof { assert(r@ =~= cycled(v@, n as int)); }
    r
}

/// The length of row `i` of `ctx` in a table, 0 when there is none.
fn row_len_at<T>(m: &CtxMap<Vec<Vec<T>>>, ctx: Ctx, i: usize) -> (r: usize)
    requires
        m.inv(),
    ensures
        r == (if i < rows_or_empty(table(*m), ctx).len() { rows_or_empty(table(*m), ctx)[i as int].len() as int } else { 0 }),
{
    match m.get(&ctx) {
        Some(v) => {
            proof { assert(rows(*v).len() == v@.len()); }
            if i < v.len() {
                proof { assert(rows(*v)[i as int] == v@[i as int]@); }
                v[i].len()
            } else {
                0
            }
        },
        None => 0,
    }
}

/// Adds the column `v` to the rows of `ctx` the way `add` does for a scope.
fn add_to_table<T>(m: &mut CtxMap<Vec<Vec<T>>>, ctx: Ctx, v: Vec<T>, scope: Scope)
    requires
        old(m).inv(),
    ensures
        final(m).inv(),
        table(*final(m)) == after_add(table(*old(m)), ctx, v@, scope),
{
    if scope == Scope::Sequence {
        push_row(m, ctx, v);
    } else {
        let ghost g = v@;
        let r = vec![v];
        proof { assert(rows(r) =~= seq![g]); }
        extend_rows(m, ctx, r);
    }
}

impl State {
    /// Pads the row of parameter `kind` at the last pitch row of `ctx` with
    /// the values `get` sees, repeated, up to the length of the pitch row.
    fn pad_(&mut self, ctx: Ctx, kind: ParamKind)
        requires
            old(self).wf(),
            kind != ParamKind::Pc,
            kind == ParamKind::Length ==> old(self).pad_ok(old(self).spec_lengths(), ctx),
            kind == ParamKind::Velocity ==> old(self).pad_ok(old(self).spec_velocities(), ctx),
            kind == ParamKind::Tempo ==> old(self).pad_ok(old(self).spec_tempos(), ctx),
            kind == ParamKind::Register ==> old(self).pad_ok(old(self).spec_registers(), ctx),
            kind == ParamKind::Program ==> old(self).pad_ok(old(self).spec_programs(), ctx),
        ensures
            final(self).wf(),
            final(self).spec_pcs() == old(self).spec_pcs(),
            final(self).spec_lengths() == (if kind == ParamKind::Length { old(self).padded(old(self).spec_lengths(), ctx, Length::MicroSeconds(Fraction { numer: 0, denom: 1 })) } else { old(self).spec_lengths() }),
            final(self).spec_velocities() == (if kind == ParamKind::Velocity { old(self).padded(old(self).spec_velocities(), ctx, Velocity(80)) } else { old(self).spec_velocities() }),
            final(self).spec_tempos() == (if kind == ParamKind::Tempo { old(self).padded_tempos(ctx) } else { old(self).spec_tempos() }),
            final(self).spec_registers() == (if kind == ParamKind::Register { old(self).padded(old(self).spec_registers(), ctx, Register::Reg(4)) } else { old(self).spec_registers() }),
            final(self).spec_programs() == (if kind == ParamKind::Program { old(self).padded(old(self).spec_programs(), ctx, Prog(0)) } else { old(self).spec_programs() }),
            final(self).same_tree(old(self)),
            final(self).same_reader(old(self)),
            final(self).same_rest(old(self)),
    {
        let pr = row_count(&self.pcs_, ctx);
        let i: usize = if pr > 0 { pr - 1 } else { 0 };
        let p_len = row_len_at(&self.pcs_, ctx, i);
        let scope = self.scope(ctx);
        match kind {
            ParamKind::Program => {
                let values = self.get_(&self.programs_, ctx, Prog::default());
                let t_len = row_len_at(&self.programs_, ctx, i);
                if t_len < p_len {
                    let v = cycle_take(&values, p_len - t_len);
                    add_to_table(&mut self.programs_, ctx, v, scope);
                }
            },
            ParamKind::Velocity => {
                let values = self.get_(&self.velocities_, ctx, Velocity::default());
                let t_len = row_len_at(&self.velocities_, ctx, i);
                if t_len < p_len {
                    let v = cycle_take(&values, p_len - t_len);
                    add_to_table(&mut self.velocities_, ctx, v, scope);
                }
            },
            ParamKind::Length => {
                let values = self.get_(&self.lengths_, ctx, Length::default());
                let t_len = row_len_at(&self.lengths_, ctx, i);
                if t_len < p_len {
                    let v = cycle_take(&values, p_len - t_len);
                    add_to_table(&mut self.lengths_, ctx, v, scope);
                }
            },
            ParamKind::Register => {
                let values = self.get_(&self.registers_, ctx, Register::default());
                let t_len = row_len_at(&self.registers_, ctx, i);
                if t_len < p_len {
                    let v = cycle_take(&values, p_len - t_len);
                    add_to_table(&mut self.registers_, ctx, v, scope);
                }
            },
            ParamKind::Tempo => {
                let values = self.get_(&self.tempos_, ctx, Mpb::default());
                let t_len = row_len_at(&self.tempos_, ctx, i);
                if t_len < p_len {
                    let v = cycle_take(&values, p_len - t_len);
                    if scope == Scope::Sequence {
                        self.add_tempos(ctx, v);
                    } else {
                        add_to_table(&mut self.tempos_, ctx, v, scope);
                    }
                }
            },
            ParamKind::Pc => {},
        }
    }

    /// Pads the programs, velocities, lengths, registers and tempi of `ctx`
    /// to the length of its last pitch row; `len` is not read.
    pub fn pad(&mut self, ctx: Ctx, len: usize)
        requires
            old(self).wf(),
            old(self).pad_ok(old(self).spec_programs(), ctx),
            old(self).pad_ok(old(self).spec_velocities(), ctx),
            old(self).pad_ok(old(self).spec_lengths(), ctx),
            old(self).pad_ok(old(self).spec_registers(), ctx),
            old(self).pad_ok(old(self).spec_tempos(), ctx),
        ensures
            final(self).wf(),
            final(self).spec_pcs() == old(self).spec_pcs(),
            final(self).spec_programs() == old(self).padded(old(self).spec_programs(), ctx, Prog(0)),
            final(self).spec_velocities() == old(self).padded(old(self).spec_velocities(), ctx, Velocity(80)),
            final(self).spec_lengths() == old(self).padded(old(self).spec_lengths(), ctx, Length::MicroSeconds(Fraction { numer: 0, denom: 1 })),
            final(self).spec_registers() == old(self).padded(old(self).spec_registers(), ctx, Register::Reg(4)),
            final(self).spec_tempos() == old(self).padded_tempos(ctx),
            final(self).same_tree(old(self)),
            final(self).same_reader(old(self)),
            final(self).same_rest(old(self)),
    {
        self.pad_(ctx, ParamKind::Program);
        self.pad_(ctx, ParamKind::Velocity);
        self.pad_(ctx, ParamKind::Length);
        self.pad_(ctx, ParamKind::Register);
        self.pad_(ctx, ParamKind::Tempo);
    }
}

/// Puts `row` at place `i` of the rows of `ctx` the way `hoist` does, when
/// `ctx` has rows.
fn place_row<T>(m: &mut CtxMap<Vec<Vec<T>>>, ctx: Ctx, i: usize, row: Vec<T>)
    requires
        old(m).inv(),
    ensures
        final(m).inv(),
        table(*old(m)).contains_key(ctx_key(ctx)) ==> table(*final(m)) == table(*old(m)).insert(
            ctx_key(ctx),
            placed(table(*old(m))[ctx_key(ctx)], i as int, row@),
        ),
        !table(*old(m)).contains_key(ctx_key(ctx)) ==> table(*final(m)) == table(*old(m)),
{
    let ghost old_t = table(*m);
    if let Some(mut r) = m.remove(&ctx) {
        let ghost r0 = rows(r);
        let ghost g = row@;
        if r.len() == 0 {
            r.push(row);
        } else if i < r.len() {
            r.set(i, row);
        } else {
            r.push(row);
        }
        proof {
            assert(rows(r) =~= placed(r0, i as int, g));
        }
        m.insert(ctx, r);
        proof {
            assert(table(*m) =~= old_t.insert(ctx_key(ctx), placed(r0, i as int, g)));
        }
    } else {
        proof {
            assert(table(*m) =~= old_t);
        }
    }
}

/// Takes the first row off a list of rows.
fn take_first<T>(v: &mut Vec<Vec<T>>) -> (r: Vec<T>)
    requires
        old(v)@.len() > 0,
    ensures
        r@ == rows(*old(v))[0],
        rows(*final(v)) == rows(*old(v)).drop_first(),
{
    let ghost before = rows(*v);
    let ghost raw = v@;
    let r = v.remove(0);
    proof {
        assert(before[0] == raw[0]@);
        assert forall|j: int| 0 <= j < v@.len() implies #[trigger] rows(*v)[j] == before.drop_first()[j] by {
            assert(v@[j] == raw[j + 1]);
            assert(before[j + 1] == raw[j + 1]@);
        }
        assert(rows(*v) =~= before.drop_first());
    }
    r
}

impl State {
    /// Moves the rows of `from` into `to`, column by column, as far as every
    /// parameter of `from` has rows: each pitch row is added to `to`, and the
    /// other rows are put at the place of that pitch row. `from` keeps empty
    /// rows, and its children move under `to`, last and in their order. The
    /// children of `from` must have been made after `to`, so that the tree
    /// keeps no cycle.
    pub fn hoist(&mut self, from: Ctx, to: Ctx)
        requires
            old(self).wf(),
            ctx_key(from) != ctx_key(to),
            forall|i: int| 0 <= i < old(self).children_of(from).len() ==> rank(to) < rank(#[trigger] old(self).children_of(from)[i]),
        ensures
            final(self).wf(),
            final(self).spec_pcs() == ({
                let m1 = cleared(old(self).spec_pcs(), from);
                if old(self).hoist_count(from) > 0 {
                    m1.insert(ctx_key(to), rows_or_empty(m1, to) + rows_or_empty(old(self).spec_pcs(), from).take(old(self).hoist_count(from) as int))
                } else {
                    m1
                }
            }),
            final(self).spec_registers() == hoisted(old(self).spec_registers(), from, to, rows_or_empty(old(self).spec_pcs(), to).len() as int, old(self).hoist_count(from)),
            final(self).spec_lengths() == hoisted(old(self).spec_lengths(), from, to, rows_or_empty(old(self).spec_pcs(), to).len() as int, old(self).hoist_count(from)),
            final(self).spec_velocities() == hoisted(old(self).spec_velocities(), from, to, rows_or_empty(old(self).spec_pcs(), to).len() as int, old(self).hoist_count(from)),
            final(self).spec_tempos() == hoisted(old(self).spec_tempos(), from, to, rows_or_empty(old(self).spec_pcs(), to).len() as int, old(self).hoist_count(from)),
            final(self).spec_programs() == hoisted(old(self).spec_programs(), from, to, rows_or_empty(old(self).spec_pcs(), to).len() as int, old(self).hoist_count(from)),
            forall|i: int| 0 <= i < old(self).children_of(from).len() ==>
                final(self).parent_of(#[trigger] old(self).children_of(from)[i]) == to,
            final(self).children_of(to) == moved_into(old(self).children_of(to), old(self).children_of(from)),
            final(self).spec_ctx_count() == old(self).spec_ctx_count(),
            final(self).spec_ctxs() == old(self).spec_ctxs(),
            final(self).spec_scopes() == old(self).spec_scopes(),
            final(self).spec_layers() == old(self).spec_layers(),
            final(self).same_reader(old(self)),
            final(self).same_rest(old(self)),
    {
        let ghost o = *self;
        let ghost start = rows_or_empty(self.spec_pcs(), to).len() as int;
        let mut programs = take_rows(&mut self.programs_, from);
        let mut pcs = take_rows(&mut self.pcs_, from);
        let mut velocities = take_rows(&mut self.velocities_, from);
        let mut registers = take_rows(&mut self.registers_, from);
        let mut lengths = take_rows(&mut self.lengths_, from);
        let mut tempos = take_rows(&mut self.tempos_, from);
        proof {
            assert(rows(pcs).len() == pcs@.len());
            assert(rows(programs).len() == programs@.len());
            assert(rows(velocities).len() == velocities@.len());
            assert(rows(registers).len() == registers@.len());
            assert(rows(lengths).len() == lengths@.len());
            assert(rows(tempos).len() == tempos@.len());
            lemma_ctx_key_injective(from, to);
        }
        let mut n = pcs.len();
        if programs.len() < n { n = programs.len(); }
        if registers.len() < n { n = registers.len(); }
        if velocities.len() < n { n = velocities.len(); }
        if lengths.len() < n { n = lengths.len(); }
        if tempos.len() < n { n = tempos.len(); }
        proof {
            assert(n == o.hoist_count(from));
        }
        let ghost m1_pcs = self.spec_pcs();
        let mut k: usize = 0;
        while k < n
            invariant
                self.wf(),
                k <= n,
                n == o.hoist_count(from),
                ctx_key(from) != ctx_key(to),
                forall|i: int| 0 <= i < o.children_of(from).len() ==> rank(to) < rank(#[trigger] o.children_of(from)[i]),
                start == rows_or_empty(o.spec_pcs(), to).len(),
                m1_pcs == cleared(o.spec_pcs(), from),
                rows(pcs) == rows_or_empty(o.spec_pcs(), from).skip(k as int),
                rows(programs) == rows_or_empty(o.spec_programs(), from).skip(k as int),
                rows(registers) == rows_or_empty(o.spec_registers(), from).skip(k as int),
                rows(velocities) == rows_or_empty(o.spec_velocities(), from).skip(k as int),
                rows(lengths) == rows_or_empty(o.spec_lengths(), from).skip(k as int),
                rows(tempos) == rows_or_empty(o.spec_tempos(), from).skip(k as int),
                k > 0 ==> self.spec_pcs() == m1_pcs.insert(ctx_key(to), rows_or_empty(m1_pcs, to) + rows_or_empty(o.spec_pcs(), from).take(k as int)),
                k == 0 ==> self.spec_pcs() == m1_pcs,
                self.spec_registers() == hoisted(o.spec_registers(), from, to, start, k as nat),
                self.spec_lengths() == hoisted(o.spec_lengths(), from, to, start, k as nat),
                self.spec_velocities() == hoisted(o.spec_velocities(), from, to, start, k as nat),
                self.spec_tempos() == hoisted(o.spec_tempos(), from, to, start, k as nat),
                self.spec_programs() == hoisted(o.spec_programs(), from, to, start, k as nat),
                self.same_tree(&o),
                self.same_reader(&o),
                self.same_rest(&o),
            decreases n - k,
        {
            let ghost kk = k as int;
            proof {
                assert(rows(pcs).len() == pcs@.len());
                assert(rows(programs).len() == programs@.len());
                assert(rows(registers).len() == registers@.len());
                assert(rows(velocities).len() == velocities@.len());
                assert(rows(lengths).len() == lengths@.len());
                assert(rows(tempos).len() == tempos@.len());
            }
            let p = take_first(&mut pcs);
            let pr = take_first(&mut programs);
            let rg = take_first(&mut registers);
            let vl = take_first(&mut velocities);
            let ln = take_first(&mut lengths);
            let tp = take_first(&mut tempos);
            proof {
                assert(rows(pcs) =~= rows_or_empty(o.spec_pcs(), from).skip(kk + 1));
                assert(rows(programs) =~= rows_or_empty(o.spec_programs(), from).skip(kk + 1));
                assert(rows(registers) =~= rows_or_empty(o.spec_registers(), from).skip(kk + 1));
                assert(rows(velocities) =~= rows_or_empty(o.spec_velocities(), from).skip(kk + 1));
                assert(rows(lengths) =~= rows_or_empty(o.spec_lengths(), from).skip(kk + 1));
                assert(rows(tempos) =~= rows_or_empty(o.spec_tempos(), from).skip(kk + 1));
                assert(p@ == rows_or_empty(o.spec_pcs(), from)[kk]);
                assert(rows_or_empty(m1_pcs, to) == rows_or_empty(o.spec_pcs(), to));
            }
            self.add_pcs(to, p);
            proof {
                if kk == 0 {
                    assert(rows_or_empty(m1_pcs, to) + rows_or_empty(o.spec_pcs(), from).take(0) =~= rows_or_empty(m1_pcs, to));
                }
                assert(rows_or_empty(self.spec_pcs(), to) =~= rows_or_empty(m1_pcs, to) + rows_or_empty(o.spec_pcs(), from).take(kk + 1));
                assert(self.spec_pcs() =~= m1_pcs.insert(ctx_key(to), rows_or_empty(m1_pcs, to) + rows_or_empty(o.spec_pcs(), from).take(kk + 1)));
            }
            let count = row_count(&self.pcs_, to);
            let index = count - 1;
            proof {
                assert(index == start + kk);
            }
            place_row(&mut self.registers_, to, index, rg);
            place_row(&mut self.lengths_, to, index, ln);
            place_row(&mut self.velocities_, to, index, vl);
            place_row(&mut self.tempos_, to, index, tp);
            place_row(&mut self.programs_, to, index, pr);
            proof {
                assert(self.spec_registers() =~= hoisted(o.spec_registers(), from, to, start, (kk + 1) as nat));
                assert(self.spec_lengths() =~= hoisted(o.spec_lengths(), from, to, start, (kk + 1) as nat));
                assert(self.spec_velocities() =~= hoisted(o.spec_velocities(), from, to, start, (kk + 1) as nat));
                assert(self.spec_tempos() =~= hoisted(o.spec_tempos(), from, to, start, (kk + 1) as nat));
                assert(self.spec_programs() =~= hoisted(o.spec_programs(), from, to, start, (kk + 1) as nat));
            }
            k = k + 1;
        }
        proof {
            assert(k == n);
        }
        self.move_children(from, to);
    }
}

impl Thunk {
    /// Runs the action on `ctx`.
    pub fn call(&self, ctx: Ctx, state: &mut State)
        requires
            old(state).wf(),
            old(state).scope_of(ctx) == Scope::Sequence || old(state).scope_of(ctx) == Scope::Stack,
        ensures
            final(state).wf(),
            final(state).spec_tables() == thunk_applied(old(state).spec_tables(), ctx, *self, old(state).scope_of(ctx)),
            final(state).same_tree(old(state)),
            final(state).same_reader(old(state)),
            final(state).same_rest(old(state)),
    {
        match self {
            Thunk::Add(p) => {
                let col = match p {
                    Param::Pc(v) => Column::Pc(vec![*v]),
                    Param::Length(v) => Column::Length(vec![*v]),
                    Param::Velocity(v) => Column::Velocity(vec![*v]),
                    Param::Tempo(v) => Column::Tempo(vec![*v]),
                    Param::Register(v) => Column::Register(vec![*v]),
                    Param::Program(v) => Column::Program(vec![*v]),
                };
                proof {
                    assert(col.pcs() =~= (match p { Param::Pc(v) => seq![*v], _ => Seq::empty() }));
                    assert(col.lengths() =~= (match p { Param::Length(v) => seq![*v], _ => Seq::empty() }));
                    assert(col.velocities() =~= (match p { Param::Velocity(v) => seq![*v], _ => Seq::empty() }));
                    assert(col.tempos() =~= (match p { Param::Tempo(v) => seq![*v], _ => Seq::empty() }));
                    assert(col.registers() =~= (match p { Param::Register(v) => seq![*v], _ => Seq::empty() }));
                    assert(col.programs() =~= (match p { Param::Program(v) => seq![*v], _ => Seq::empty() }));
                }
                state.add(ctx, col);
            },
            Thunk::ReplaceLastLength(l) => {
                if !state.replace_last_length(ctx, *l) {
                    let col = Column::Length(vec![*l]);
                    proof {
                        assert(col.lengths() =~= seq![*l]);
                    }
                    state.add(ctx, col);
                }
            },
        }
    }
}

impl State {
    /// Puts `l` in place of the last length of `ctx`, when its last length row
    /// has a value; returns whether it did.
    pub fn replace_last_length(&mut self, ctx: Ctx, l: Length) -> (r: bool)
        requires
            old(self).wf(),
        ensures
            final(self).wf(),
            r == has_last(old(self).spec_lengths(), ctx),
            r ==> final(self).spec_lengths() == old(self).spec_lengths().insert(ctx_key(ctx), last_replaced(old(self).spec_lengths()[ctx_key(ctx)], l)),
            !r ==> final(self).spec_lengths() == old(self).spec_lengths(),
            final(self).spec_pcs() == old(self).spec_pcs(),
            final(self).spec_programs() == old(self).spec_programs(),
            final(self).spec_registers() == old(self).spec_registers(),
            final(self).spec_velocities() == old(self).spec_velocities(),
            final(self).spec_tempos() == old(self).spec_tempos(),
            final(self).same_tree(old(self)),
            final(self).same_reader(old(self)),
            final(self).same_rest(old(self)),
    {
        let ghost old_t = self.spec_lengths();
        match self.lengths_.remove(&ctx) {
            Some(mut rs) => {
                let ghost r0 = rows(rs);
                proof {
                    assert(r0.len() == rs@.len());
                }
                if rs.len() > 0 && rs[rs.len() - 1].len() > 0 {
                    let n = rs.len() - 1;
                    let mut last = rs.remove(n);
                    proof {
                        assert(last@ == r0.last());
                    }
                    let m = last.len() - 1;
                    last.set(m, l);
                    rs.push(last);
                    proof {
                        assert(rows(rs) =~= last_replaced(r0, l));
                    }
                    self.lengths_.insert(ctx, rs);
                    proof {
                        assert(self.spec_lengths() =~= old_t.insert(ctx_key(ctx), last_replaced(r0, l)));
                    }
                    true
                } else {
                    proof {
                        if rs@.len() > 0 {
                            assert(r0.last() == rs@.last()@);
                        }
                    }
                    self.lengths_.insert(ctx, rs);
                    proof {
                        assert(self.spec_lengths() =~= old_t);
                    }
                    false
                }
            },
            None => {
                proof {
                    assert(self.spec_lengths() =~= old_t);
                }
                false
            },
        }
    }
}

impl State {
    /// Runs the actions of `ctx` for `event`, in the order they were added.
    pub fn call_thunks(&mut self, ctx: Ctx, event: LifeCycleEvent)
        requires
            old(self).wf(),
            event_thunks(old(self).spec_thunks(), ctx, event).len() > 0 ==> old(self).scope_of(ctx) == Scope::Sequence
                || old(self).scope_of(ctx) == Scope::Stack,
        ensures
            final(self).wf(),
            final(self).spec_tables() == thunks_applied(old(self).spec_tables(), ctx, event_thunks(old(self).spec_thunks(), ctx, event), old(self).scope_of(ctx)),
            final(self).same_tree(old(self)),
            final(self).same_reader(old(self)),
            final(self).same_rest(old(self)),
    {
        let list = self.thunks(ctx, event);
        let ghost o = *self;
        let ghost scope = self.scope_of(ctx);
        let mut i: usize = 0;
        while i < list.len()
            invariant
                self.wf(),
                i <= list@.len(),
                list@ == event_thunks(o.spec_thunks(), ctx, event),
                list@.len() > 0 ==> scope == Scope::Sequence || scope == Scope::Stack,
                scope == o.scope_of(ctx),
                self.spec_tables() == thunks_applied(o.spec_tables(), ctx, list@.take(i as int), scope),
                self.same_tree(&o),
                self.same_reader(&o),
                self.same_rest(&o),
            decreases list@.len() - i,
        {
            let ghost before = self.spec_tables();
            list[i].call(ctx, self);
            proof {
                assert(list@.take(i + 1).drop_last() =~= list@.take(i as int));
            }
            i = i + 1;
        }
        proof {
            assert(list@.take(list@.len() as int) =~= list@);
        }
    }
}

impl State {
    /// Adds `slice` to the timeline at time `at`: last among the slices of the
    /// time that equals `at`, or under `at` in its place.
    pub fn insert_slice(&mut self, at: Length, slice: Slice)
        requires
            old(self).wf(),
            at is MicroSeconds,
            at.wf(),
        ensures
            final(self).wf(),
            timeline_inserted(old(self).spec_timeline(), at, slice, final(self).spec_timeline()),
            final(self).same_tree(old(self)),
            final(self).same_reader(old(self)),
            final(self).same_params(old(self)),
            final(self).spec_velocity() == old(self).spec_velocity(),
            final(self).spec_tempo() == old(self).spec_tempo(),
            final(self).spec_bindings() == old(self).spec_bindings(),
            final(self).spec_instruments() == old(self).spec_instruments(),
            final(self).spec_playhead() == old(self).spec_playhead(),
            final(self).spec_thunks() == old(self).spec_thunks(),
            final(self).spec_thunk_stack() == old(self).spec_thunk_stack(),
    {
        let ghost tl = self.spec_timeline();
        let mut i: usize = 0;
        while i < self.timeline_.len() && self.timeline_[i].0.value_lt(&at)
            invariant
                i <= self.timeline_@.len(),
                tl == self.spec_timeline(),
                tl.len() == self.timeline_@.len(),
                forall|j: int| 0 <= j < i ==> (#[trigger] tl[j]).0.spec_ratio().spec_lt(at.spec_ratio()),
            decreases self.timeline_@.len() - i,
        {
            proof {
                assert(tl[i as int].0 == self.timeline_@[i as int].0);
            }
            i = i + 1;
        }
        proof {
            if i < tl.len() {
                assert(tl[i as int].0 == self.timeline_@[i as int].0);
            }
        }
        if i < self.timeline_.len() && self.timeline_[i].0.as_ratio().same(&at.as_ratio()) {
            let (k, mut list) = self.timeline_.remove(i);
            proof {
                assert(tl[i as int] == (k, list@));
            }
            list.push(slice);
            self.timeline_.insert(i, (k, list));
            proof {
                assert(self.spec_timeline() =~= tl.update(i as int, (tl[i as int].0, tl[i as int].1.push(slice))));
                assert(tl[i as int].0.spec_ratio().spec_same(at.spec_ratio()));
                assert(!tl[i as int].0.spec_ratio().spec_lt(at.spec_ratio()));
                assert(is_place(tl, at, i as int));
                assert(timeline_inserted(tl, at, slice, self.spec_timeline()));
                let t2 = self.spec_timeline();
                assert forall|a: int| 0 <= a < t2.len() implies (#[trigger] t2[a]).0 == tl[a].0 by {}
            }
        } else {
            let mut list: Vec<Slice> = Vec::new();
            list.push(slice);
            proof {
                assert(list@ =~= seq![slice]);
            }
            self.timeline_.insert(i, (at, list));
            proof {
                assert(self.spec_timeline() =~= tl.insert(i as int, (at, seq![slice])));
                assert(is_place(tl, at, i as int));
                assert(timeline_inserted(tl, at, slice, self.spec_timeline()));
                let t2 = self.spec_timeline();
                assert forall|a: int, b: int| 0 <= a < b < t2.len() implies (#[trigger] t2[a]).0.spec_ratio().spec_lt((#[trigger] t2[b]).0.spec_ratio()) by {
                    if i < tl.len() {
                        assert(tl[i as int].0.spec_ratio().spec_lt(at.spec_ratio()) == false);
                        assert(at.spec_ratio().spec_lt(tl[i as int].0.spec_ratio()));
                    }
                    if b == i {
                    } else if a == i {
                        if b - 1 > i {
                            lemma_lt_le_trans(at.spec_ratio(), tl[i as int].0.spec_ratio(), tl[b - 1].0.spec_ratio());
                        }
                    } else if a < i && b > i {
                        assert(tl[a].0.spec_ratio().spec_lt(at.spec_ratio()));
                        assert(at.spec_ratio().spec_lt(tl[i as int].0.spec_ratio()));
                        assert(tl[i as int].0.spec_ratio().spec_le(tl[b - 1].0.spec_ratio())) by {
                            if b - 1 > i {
                                assert(tl[i as int].0.spec_ratio().spec_lt(tl[b - 1].0.spec_ratio()));
                            }
                        }
                        lemma_lt_le_trans(tl[a].0.spec_ratio(), at.spec_ratio(), tl[i as int].0.spec_ratio());
                        lemma_lt_le_trans(tl[a].0.spec_ratio(), tl[i as int].0.spec_ratio(), tl[b - 1].0.spec_ratio());
                    } else if b < i {
                    } else {
                        assert(a > i);
                        assert(tl[a - 1].0.spec_ratio().spec_lt(tl[b - 1].0.spec_ratio()));
                    }
                }
            }
        }
    }

    /// Sets the playhead.
    pub fn set_playhead(&mut self, at: Length)
        requires
            at is MicroSeconds,
            at.spec_ratio().wf(),
        ensures
            old(self).wf() ==> final(self).wf(),
            final(self).spec_playhead() == at,
            final(self).same_tree(old(self)),
            final(self).same_reader(old(self)),
            final(self).same_params(old(self)),
            final(self).spec_velocity() == old(self).spec_velocity(),
            final(self).spec_tempo() == old(self).spec_tempo(),
            final(self).spec_bindings() == old(self).spec_bindings(),
            final(self).spec_instruments() == old(self).spec_instruments(),
            final(self).spec_timeline() == old(self).spec_timeline(),
            final(self).spec_thunks() == old(self).spec_thunks(),
            final(self).spec_thunk_stack() == old(self).spec_thunk_stack(),
    {
        self.playhead = at;
    }

    /// The timeline: times in increasing order, each with its slices.
    pub fn timeline(&self) -> (r: &Vec<(Length, Vec<Slice>)>)
        ensures
            r@.map_values(|e: (Length, Vec<Slice>)| (e.0, e.1@)) == self.spec_timeline(),
            self.wf() ==> timeline_sorted(self.spec_timeline()),
    {
        &self.timeline_
    }
}

/// The values in reverse order.
fn reversed(v: Vec<Thunk>) -> (r: Vec<Thunk>)
    ensures
        r@ == v@.reverse(),
{
    let mut r: Vec<Thunk> = Vec::new();
    let mut i: usize = v.len();
    while i > 0
        invariant
            i <= v@.len(),
            r@ == v@.skip(i as int).reverse(),
        decreases i,
    {
        i = i - 1;
        r.push(v[i]);
        proof {
            assert(r@ =~= v@.skip(i as int).reverse());
        }
    }
    proof {
        assert(v@.skip(0) =~= v@);
    }
    r
}

impl State {
    /// Empties the actions of `ctx` for `event`, when it has a list of them.
    fn empty_thunks(&mut self, ctx: Ctx, event: LifeCycleEvent)
        requires
            old(self).wf(),
        ensures
            final(self).wf(),
            final(self).spec_thunks() == thunks_emptied(old(self).spec_thunks(), ctx, event),
            final(self).spec_tables() == old(self).spec_tables(),
            final(self).same_tree(old(self)),
            final(self).same_reader(old(self)),
            final(self).spec_thunk_stack() == old(self).spec_thunk_stack(),
            final(self).spec_velocity() == old(self).spec_velocity(),
            final(self).spec_tempo() == old(self).spec_tempo(),
            final(self).spec_bindings() == old(self).spec_bindings(),
            final(self).spec_instruments() == old(self).spec_instruments(),
            final(self).spec_timeline() == old(self).spec_timeline(),
            final(self).spec_playhead() == old(self).spec_playhead(),
    {
        let ghost old_t = self.spec_thunks();
        let ghost old_raw = self.thunks@;
        if let Some(mut m) = self.thunks.remove(&ctx) {
            proof {
                assert(m.inv());
            }
            let ghost m0 = m@;
            if m.contains(&event) {
                let e: Vec<Thunk> = Vec::new();
                m.insert(event, e);
                proof {
                    assert(m@.map_values(|v: Vec<Thunk>| v@) =~= old_t[ctx_key(ctx)].insert(event_key(event), Seq::empty()));
                }
            } else {
                proof {
                    assert(m@.map_values(|v: Vec<Thunk>| v@) =~= old_t[ctx_key(ctx)]);
                }
            }
            self.thunks.insert(ctx, m);
            proof {
                assert(self.spec_thunks() =~= thunks_emptied(old_t, ctx, event));
                assert forall|k: Seq<int>| #[trigger] self.thunks@.contains_key(k) implies self.thunks@[k].inv() by {
                    if k != ctx_key(ctx) {
                        assert(old_raw.contains_key(k));
                    }
                }
            }
        } else {
            proof {
                assert(self.spec_thunks() =~= thunks_emptied(old_t, ctx, event));
            }
        }
    }

    /// Runs the composing actions of `from` on `into`: the first, then the
    /// rest in turn with their order reversed each time; the list of `from`
    /// is left empty.
    pub fn compose_thunks(&mut self, from: Ctx, into: Ctx)
        requires
            old(self).wf(),
            event_thunks(old(self).spec_thunks(), from, LifeCycleEvent::Composing).len() > 0 ==> old(self).scope_of(into) == Scope::Sequence
                || old(self).scope_of(into) == Scope::Stack,
        ensures
            final(self).wf(),
            final(self).spec_tables() == thunks_applied(
                old(self).spec_tables(),
                into,
                zigzag(event_thunks(old(self).spec_thunks(), from, LifeCycleEvent::Composing)),
                old(self).scope_of(into),
            ),
            final(self).spec_thunks() == thunks_emptied(old(self).spec_thunks(), from, LifeCycleEvent::Composing),
            final(self).same_tree(old(self)),
            final(self).same_reader(old(self)),
            final(self).spec_thunk_stack() == old(self).spec_thunk_stack(),
            final(self).spec_velocity() == old(self).spec_velocity(),
            final(self).spec_tempo() == old(self).spec_tempo(),
            final(self).spec_bindings() == old(self).spec_bindings(),
            final(self).spec_instruments() == old(self).spec_instruments(),
            final(self).spec_timeline() == old(self).spec_timeline(),
            final(self).spec_playhead() == old(self).spec_playhead(),
    {
        let ghost o = *self;
        let ghost scope = self.scope_of(into);
        let mut list = self.thunks(from, LifeCycleEvent::Composing);
        let ghost full = list@;
        let ghost mut done: Seq<Thunk> = Seq::empty();
        proof {
            assert(zigzag(full) =~= Seq::<Thunk>::empty() + zigzag(full));
        }
        while list.len() > 0
            invariant
                self.wf(),
                self.same_tree(&o),
                self.same_reader(&o),
                self.same_rest(&o),
                scope == o.scope_of(into),
                full == event_thunks(o.spec_thunks(), from, LifeCycleEvent::Composing),
                full.len() > 0 ==> scope == Scope::Sequence || scope == Scope::Stack,
                done + zigzag(list@) == zigzag(full),
                self.spec_tables() == thunks_applied(o.spec_tables(), into, done, scope),
            decreases list@.len(),
        {
            let ghost l0 = list@;
            let first = list[0];
            let rest = list.split_off(1);
            proof {
                assert(rest@ == l0.skip(1));
                assert(zigzag(l0) == seq![l0[0]] + zigzag(l0.skip(1).reverse()));
            }
            list = reversed(rest);
            first.call(into, self);
            proof {
                assert((done.push(first)).drop_last() =~= done);
                assert(done.push(first) + zigzag(list@) =~= done + zigzag(l0));
                done = done.push(first);
            }
        }
        proof {
            assert(zigzag(list@) =~= Seq::<Thunk>::empty());
            assert(done =~= zigzag(full));
        }
        self.empty_thunks(from, LifeCycleEvent::Composing);
    }
}

/// What a binding writes is what a lookup reads: once `ident` is bound to
/// `exp` in `ctx` (the other bindings unchanged), looking `ident` up from
/// `ctx` gives `exp`.
pub proof fn law_binding_reads_back(o: State, n: State, ctx: Ctx, ident: Ident, exp: ExpV)
    requires
        ctx != Ctx::Nothing,
        n.spec_bindings() == o.spec_bindings().insert(
            ctx_key(ctx),
            (if o.spec_bindings().contains_key(ctx_key(ctx)) {
                o.spec_bindings()[ctx_key(ctx)]
            } else {
                Map::empty()
            }).insert(ident_key(ident), exp),
        ),
    ensures
        n.lookup(ctx, ident) == Some(exp),
{
}

/// Bindings are seen from below: a context with no binding of its own for
/// `ident` sees the binding that its parent sees.
pub proof fn law_binding_inherited(s: State, ctx: Ctx, ident: Ident)
    requires
        s.wf(),
        ctx != Ctx::Nothing,
        !(s.spec_bindings().contains_key(ctx_key(ctx)) && s.spec_bindings()[ctx_key(ctx)].contains_key(
            ident_key(ident),
        )),
    ensures
        s.lookup(ctx, ident) == (if s.parent_of(ctx) != Ctx::Nothing { s.lookup(s.parent_of(ctx), ident) } else { None }),
{
    let p = s.parent_of(ctx);
    if p != Ctx::Nothing {
        assert(s.spec_parents().contains_key(ctx_key(ctx)));
        assert(rank(p) < rank(ctx));
    } else {
        assert(rank(p) == 0);
        if rank(ctx) > 0 {
            assert(s.lookup(p, ident) is None);
        }
    }
}

/// The times of the timeline always increase: every well-formed state keeps
/// them strictly ordered, each a well-formed duration.
pub proof fn law_timeline_sorted(s: State)
    requires
        s.wf(),
    ensures
        timeline_sorted(s.spec_timeline()),
{
}

/// Dropping entries from a list of children keeps the ranks ordered.
proof fn lemma_ranked_shrink(
    children: Map<Seq<int>, Seq<Ctx>>,
    parents: Map<Seq<int>, Ctx>,
    p0: Ctx,
    list: Seq<Ctx>,
)
    requires
        ranked(children, parents),
        forall|i: int| 0 <= i < list.len() ==> rank(#[trigger] list[i]) > rank(p0),
    ensures
        ranked(children.insert(ctx_key(p0), list), parents),
{
    let c2 = children.insert(ctx_key(p0), list);
    assert forall|p: Ctx, i: int| 0 <= i < children_or_empty(c2, p).len() implies rank(
        #[trigger] children_or_empty(c2, p)[i],
    ) > rank(p) by {
        lemma_ctx_key_injective(p, p0);
        if p != p0 {
            assert(children_or_empty(c2, p) == children_or_empty(children, p));
        }
    }
}

/// Removing a parent link keeps the ranks ordered.
proof fn lemma_ranked_unparent(children: Map<Seq<int>, Seq<Ctx>>, parents: Map<Seq<int>, Ctx>, c0: Ctx)
    requires
        ranked(children, parents),
    ensures
        ranked(children, parents.remove(ctx_key(c0))),
{
}

/// Every context kept by `without_index` ranks above `r` when all of `s` do.
proof fn lemma_without_index_ranks(s: Seq<Ctx>, n: int, r: int)
    requires
        forall|i: int| 0 <= i < s.len() ==> rank(#[trigger] s[i]) > r,
    ensures
        forall|i: int| 0 <= i < without_index(s, n).len() ==> rank(#[trigger] without_index(s, n)[i]) > r,
    decreases s.len(),
{
    if s.len() > 0 {
        lemma_without_index_ranks(s.drop_last(), n, r);
        let rest = without_index(s.drop_last(), n);
        assert forall|i: int| 0 <= i < without_index(s, n).len() implies rank(#[trigger] without_index(s, n)[i]) > r by {
            if i < rest.len() {
                assert(without_index(s, n)[i] == rest[i]);
            } else {
                assert(without_index(s, n)[i] == s.last());
            }
        }
    }
}

/// Linking `ctx` under a lower-ranked `parent` keeps the ranks ordered.
proof fn lemma_ranked_link(
    children: Map<Seq<int>, Seq<Ctx>>,
    parents: Map<Seq<int>, Ctx>,
    ctx: Ctx,
    parent: Ctx,
)
    requires
        ranked(children, parents),
        rank(parent) < rank(ctx),
    ensures
        ranked(
            children.insert(ctx_key(parent), children_or_empty(children, parent).push(ctx)),
            parents.insert(ctx_key(ctx), parent),
        ),
{
    let c2 = children.insert(ctx_key(parent), children_or_empty(children, parent).push(ctx));
    let p2 = parents.insert(ctx_key(ctx), parent);
    assert forall|p: Ctx, i: int| 0 <= i < children_or_empty(c2, p).len() implies rank(
        #[trigger] children_or_empty(c2, p)[i],
    ) > rank(p) by {
        lemma_ctx_key_injective(p, parent);
        if p != parent {
            assert(children_or_empty(c2, p) == children_or_empty(children, p));
        } else if i < children_or_empty(children, p).len() {
            assert(children_or_empty(c2, p)[i] == children_or_empty(children, p)[i]);
        }
    }
    assert forall|c: Ctx| #[trigger] p2.contains_key(ctx_key(c)) implies rank(p2[ctx_key(c)]) < rank(c) by {
        lemma_ctx_key_injective(c, ctx);
    }
}

/// Distinct contexts have distinct keys.
pub proof fn lemma_ctx_key_injective(a: Ctx, b: Ctx)
    ensures
        ctx_key(a) == ctx_key(b) <==> a == b,
{
    if ctx_key(a) == ctx_key(b) {
        match a {
            Ctx::Id(n) => {
                assert(ctx_key(a)[0] == ctx_key(b)[0]);
                match b {
                    Ctx::Id(m) => {
                        assert(ctx_key(a)[1] == ctx_key(b)[1]);
                    },
                    _ => {},
                }
            },
            _ => {
                assert(ctx_key(a)[0] == ctx_key(b)[0]);
            },
        }
    }
}

proof fn lemma_view_exps_push(v: Seq<Exp>, e: Exp)
    ensures
        view_exps(v.push(e)) == view_exps(v).push(view_exp(e)),
{
    assert(v.push(e).drop_last() =~= v);
}

pub proof fn lemma_view_exps_len(v: Seq<Exp>)
    ensures
        view_exps(v).len() == v.len(),
    decreases v.len(),
{
    if v.len() > 0 {
        lemma_view_exps_len(v.drop_last());
    }
}

proof fn lemma_view_exps_index(v: Seq<Exp>, i: int)
    requires
        0 <= i < v.len(),
    ensures
        view_exps(v).len() == v.len(),
        view_exps(v)[i] == view_exp(v[i]),
    decreases v.len(),
{
    lemma_view_exps_len(v);
    if i < v.len() - 1 {
        lemma_view_exps_index(v.drop_last(), i);
    }
}

/// Dropping the contexts numbered `n` from two lists joined drops them from
/// each.
proof fn lemma_without_index_concat(a: Seq<Ctx>, b: Seq<Ctx>, n: int)
    ensures
        without_index(a + b, n) == without_index(a, n) + without_index(b, n),
    decreases b.len(),
{
    if b.len() == 0 {
        assert(a + b =~= a);
        assert(without_index(a, n) + without_index(b, n) =~= without_index(a, n));
    } else {
        lemma_without_index_concat(a, b.drop_last(), n);
        assert((a + b).drop_last() =~= a + b.drop_last());
        assert((a + b).last() == b.last());
        if ctx_index(b.last()) != n {
            assert(without_index(a, n) + without_index(b.drop_last(), n).push(b.last())
                =~= (without_index(a, n) + without_index(b.drop_last(), n)).push(b.last()));
        }
    }
}

/// A list in which no context is numbered `n` loses nothing to
/// `without_index`.
proof fn lemma_without_index_none(b: Seq<Ctx>, n: int)
    requires
        forall|i: int| 0 <= i < b.len() ==> ctx_index(#[trigger] b[i]) != n,
    ensures
        without_index(b, n) == b,
    decreases b.len(),
{
    if b.len() > 0 {
        lemma_without_index_none(b.drop_last(), n);
        assert(b.drop_last().push(b.last()) =~= b);
    }
}

/// Moving contexts with distinct numbers under a context, one after the
/// other, leaves its children that are numbered like none of them in their
/// order, followed by the moved contexts in their order, each once.
pub proof fn lemma_moved_into_appends(l: Seq<Ctx>, cs: Seq<Ctx>)
    requires
        forall|i: int, j: int| 0 <= i < j < cs.len() ==> ctx_index(#[trigger] cs[i]) != ctx_index(#[trigger] cs[j]),
    ensures
        moved_into(l, cs) == without_indices(l, cs) + cs,
    decreases cs.len(),
{
    if cs.len() == 0 {
        assert(l + cs =~= l);
    } else {
        let c = cs.last();
        let rest = cs.drop_last();
        assert forall|i: int, j: int| 0 <= i < j < rest.len() implies ctx_index(#[trigger] rest[i]) != ctx_index(#[trigger] rest[j]) by {
            assert(rest[i] == cs[i] && rest[j] == cs[j]);
        }
        lemma_moved_into_appends(l, rest);
        lemma_without_index_concat(without_indices(l, rest), rest, ctx_index(c));
        assert forall|i: int| 0 <= i < rest.len() implies ctx_index(#[trigger] rest[i]) != ctx_index(c) by {
            assert(rest[i] == cs[i]);
            assert(c == cs[cs.len() - 1]);
        }
        lemma_without_index_none(rest, ctx_index(c));
        assert((without_indices(l, cs) + rest).push(c) =~= without_indices(l, cs) + cs);
    }
}


} // verus!
