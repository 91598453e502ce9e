//! Maps kept as lists of entries, the storage of the context arena.
use crate::compiler::ast::Ident;
use crate::compiler::codegen::{Ctx, LifeCycleEvent, Prog};
use vstd::prelude::*;

verus! {

/// A type whose values can be compared as map keys.
pub trait Key: Sized {
    /// The key as a mathematical value.
    spec fn key(&self) -> Seq<int>;

    /// Whether two values are the same key.
    fn same_key(&self, other: &Self) -> (r: bool)
        ensures
            r == (self.key() == other.key());
}

/// The key of a context.
pub open spec fn ctx_key(c: Ctx) -> Seq<int> {
    match c {
        Ctx::Id(n) => seq![0, n as int],
        Ctx::Root => seq![1],
        Ctx::Nothing => seq![2],
    }
}

impl Key for Ctx {
    open spec fn key(&self) -> Seq<int> {
        ctx_key(*self)
    }

    fn same_key(&self, other: &Self) -> (r: bool) {
        match (*self, *other) {
            (Ctx::Id(a), Ctx::Id(b)) => {
                proof {
                    if a != b {
                        assert(ctx_key(*self)[1] != ctx_key(*other)[1]);
                    }
                }
                a == b
            },
            (Ctx::Root, Ctx::Root) => true,
            (Ctx::Nothing, Ctx::Nothing) => true,
            _ => {
                proof {
                    assert(ctx_key(*self) != ctx_key(*other)) by {
                        if ctx_key(*self).len() == ctx_key(*other).len() {
                            assert(ctx_key(*self)[0] != ctx_key(*other)[0]);
                        }
                    }
                }
                false
            },
        }
    }
}

impl Key for Prog {
    open spec fn key(&self) -> Seq<int> {
        seq![self.0 as int]
    }

    fn same_key(&self, other: &Self) -> (r: bool) {
        proof {
            if self.key() == other.key() {
                assert(self.key()[0] == other.key()[0]);
            }
        }
        self.0 == other.0
    }
}

/// The key of a lifecycle event.
pub open spec fn event_key(e: LifeCycleEvent) -> Seq<int> {
    match e {
        LifeCycleEvent::Sequencing => seq![0],
        LifeCycleEvent::Composing => seq![1],
        LifeCycleEvent::Nothing => seq![2],
    }
}

impl Key for LifeCycleEvent {
    open spec fn key(&self) -> Seq<int> {
        event_key(*self)
    }

    fn same_key(&self, other: &Self) -> (r: bool) {
        proof {
            if event_key(*self) == event_key(*other) {
                assert(event_key(*self)[0] == event_key(*other)[0]);
            }
        }
        *self == *other
    }
}

/// The characters of a name as integers.
pub open spec fn ident_key(i: Ident) -> Seq<int> {
    i.0@.map_values(|c: char| c as int)
}

impl Key for Ident {
    open spec fn key(&self) -> Seq<int> {
        ident_key(*self)
    }

    fn same_key(&self, other: &Self) -> (r: bool) {
        proof {
            if ident_key(*self) == ident_key(*other) {
                assert(ident_key(*self).len() == self.0@.len());
                assert(ident_key(*other).len() == other.0@.len());
                assert forall|j: int| 0 <= j < self.0@.len() implies self.0@[j] == other.0@[j] by {
                    assert(ident_key(*self)[j] == ident_key(*other)[j]);
                    assert(ident_key(*self)[j] == self.0@[j] as int);
                    assert(ident_key(*other)[j] == other.0@[j] as int);
                }
                assert(self.0@ =~= other.0@);
            }
        }
        self.0 == other.0
    }
}

/// A map kept as a list of entries with distinct keys.
#[derive(Debug)]
pub struct KeyMap<K, V> {
    entries: Vec<(K, V)>,
}

/// A map from contexts to values.
pub type CtxMap<V> = KeyMap<Ctx, V>;

impl<K: Key, V> KeyMap<K, V> {
    /// The entries, in the order they are stored.
    pub closed spec fn spec_entries(&self) -> Seq<(K, V)> {
        self.entries@
    }

    /// No key occurs twice.
    pub closed spec fn inv(&self) -> bool {
        forall|i: int, j: int|
            0 <= i < j < self.entries@.len() ==> self.entries@[i].0.key() != self.entries@[j].0.key()
    }

    /// `k` has an entry.
    pub closed spec fn has(&self, k: Seq<int>) -> bool {
        exists|i: int| 0 <= i < self.entries@.len() && self.entries@[i].0.key() == k
    }

    /// The position of the entry of `k`.
    pub closed spec fn idx(&self, k: Seq<int>) -> int {
        choose|i: int| 0 <= i < self.entries@.len() && self.entries@[i].0.key() == k
    }

    proof fn lemma_idx(&self, k: Seq<int>, j: int)
        requires
            self.inv(),
            0 <= j < self.entries@.len(),
            self.entries@[j].0.key() == k,
        ensures
            self.has(k),
            self.idx(k) == j,
    {
        let i = self.idx(k);
        assert(0 <= i < self.entries@.len() && self.entries@[i].0.key() == k);
        if i < j {
            assert(self.entries@[i].0.key() != self.entries@[j].0.key());
        } else if j < i {
            assert(self.entries@[j].0.key() != self.entries@[i].0.key());
        }
    }

    /// An empty map.
    pub fn new() -> (r: Self)
        ensures
            r.inv(),
            r@ == Map::<Seq<int>, V>::empty(),
    {
        let r = KeyMap { entries: Vec::new() };
        assert(r@ =~= Map::<Seq<int>, V>::empty());
        r
    }

    fn find(&self, k: &K) -> (r: Option<usize>)
        requires
            self.inv(),
        ensures
            r matches Some(i) ==> i < self.entries@.len() && self.entries@[i as int].0.key()
                == k.key() && self.idx(k.key()) == i,
            r is None ==> !self.has(k.key()),
    {
        let mut i: usize = 0;
        while i < self.entries.len()
            invariant
                self.inv(),
                i <= self.entries@.len(),
                forall|j: int| 0 <= j < i ==> self.entries@[j].0.key() != k.key(),
            decreases self.entries@.len() - i,
        {
            if self.entries[i].0.same_key(k) {
                proof {
                    self.lemma_idx(k.key(), i as int);
                }
                return Some(i);
            }
            i = i + 1;
        }
        None
    }

    /// The value of `k`, if it has one.
    pub fn get(&self, k: &K) -> (r: Option<&V>)
        requires
            self.inv(),
        ensures
            r matches Some(v) ==> self@.contains_key(k.key()) && *v == self@[k.key()],
            r is None ==> !self@.contains_key(k.key()),
    {
        match self.find(k) {
            Some(i) => Some(&self.entries[i].1),
            None => None,
        }
    }

    /// Whether the map has no entry.
    pub fn is_empty(&self) -> (r: bool)
        requires
            self.inv(),
        ensures
            r == self@.dom().is_empty(),
    {
        if self.entries.len() == 0 {
            assert(self@.dom() =~= Set::<Seq<int>>::empty());
            true
        } else {
            proof {
                self.lemma_idx(self.entries@[0].0.key(), 0);
                assert(self@.contains_key(self.entries@[0].0.key()));
                assert(!(self@.dom() =~= Set::<Seq<int>>::empty()));
            }
            false
        }
    }

    /// The keys, in the order they are stored.
    pub fn keys(&self) -> (r: Vec<K>)
        where
            K: Copy,
        requires
            self.inv(),
        ensures
            r@.len() == self.spec_entries().len(),
            forall|i: int| 0 <= i < r@.len() ==> #[trigger] r@[i] == self.spec_entries()[i].0,
            forall|i: int| 0 <= i < r@.len() ==> self@.contains_key(#[trigger] r@[i].key()),
            forall|k: Seq<int>| self@.contains_key(k) ==> exists|i: int| 0 <= i < r@.len() && #[trigger] r@[i].key() == k,
    {
        let mut r: Vec<K> = Vec::new();
        let mut i: usize = 0;
        while i < self.entries.len()
            invariant
                self.inv(),
                i <= self.entries@.len(),
                r@.len() == i,
                forall|j: int| 0 <= j < i ==> #[trigger] r@[j] == self.entries@[j].0,
            decreases self.entries@.len() - i,
        {
            r.push(self.entries[i].0);
            i = i + 1;
        }
        proof {
            assert forall|j: int| 0 <= j < r@.len() implies self@.contains_key(#[trigger] r@[j].key()) by {
                self.lemma_idx(r@[j].key(), j);
            }
            assert forall|k: Seq<int>| self@.contains_key(k) implies exists|i: int| 0 <= i < r@.len() && #[trigger] r@[i].key() == k by {
                let j = self.idx(k);
                assert(r@[j].key() == k);
            }
        }
        r
    }

    /// Whether `k` has a value.
    pub fn contains(&self, k: &K) -> (r: bool)
        requires
            self.inv(),
        ensures
            r == self@.contains_key(k.key()),
    {
        self.find(k).is_some()
    }

    /// Gives `k` the value `v`.
    pub fn insert(&mut self, k: K, v: V)
        requires
            old(self).inv(),
        ensures
            final(self).inv(),
            final(self)@ == old(self)@.insert(k.key(), v),
    {
        let ghost kk = k.key();
        let ghost old_self = *self;
        match self.find(&k) {
            Some(i) => {
                self.entries.set(i, (k, v));
                proof {
                    assert forall|key: Seq<int>|
                        #![trigger self@.contains_key(key)]
                        self@.contains_key(key) == old_self@.insert(kk, v).contains_key(key)
                        && (self@.contains_key(key) ==> self@[key] == old_self@.insert(kk, v)[key]) by {
                        if key == kk {
                            self.lemma_idx(key, i as int);
                        } else if old_self.has(key) {
                            let j = old_self.idx(key);
                            old_self.lemma_idx(key, j);
                            self.lemma_idx(key, j);
                        } else {
                            if self.has(key) {
                                let j = self.idx(key);
                                assert(old_self.entries@[j].0.key() == key);
                            }
                        }
                    }
                    assert(self@ =~= old_self@.insert(kk, v));
                }
            },
            None => {
                self.entries.push((k, v));
                proof {
                    let n = old_self.entries@.len() as int;
                    assert forall|key: Seq<int>|
                        #![trigger self@.contains_key(key)]
                        self@.contains_key(key) == old_self@.insert(kk, v).contains_key(key)
                        && (self@.contains_key(key) ==> self@[key] == old_self@.insert(kk, v)[key]) by {
                        if key == kk {
                            self.lemma_idx(key, n);
                        } else if old_self.has(key) {
                            let j = old_self.idx(key);
                            old_self.lemma_idx(key, j);
                            self.lemma_idx(key, j);
                        } else {
                            if self.has(key) {
                                let j = self.idx(key);
                                assert(old_self.entries@[j].0.key() == key);
                            }
                        }
                    }
                    assert(self@ =~= old_self@.insert(kk, v));
                }
            },
        }
    }

    /// Removes the value of `k` and returns it.
    pub fn remove(&mut self, k: &K) -> (r: Option<V>)
        requires
            old(self).inv(),
        ensures
            final(self).inv(),
            final(self)@ == old(self)@.remove(k.key()),
            r matches Some(v) ==> old(self)@.contains_key(k.key()) && v == old(self)@[k.key()],
            r is None ==> !old(self)@.contains_key(k.key()),
    {
        let ghost old_self = *self;
        match self.find(k) {
            Some(i) => {
                let (_, v) = self.entries.remove(i);
                proof {
                    assert forall|key: Seq<int>|
                        #![trigger self@.contains_key(key)]
                        self@.contains_key(key) == old_self@.remove(k.key()).contains_key(key) && (
                        self@.contains_key(key) ==> self@[key] == old_self@.remove(k.key())[key]) by {
                        if key == k.key() {
                            if self.has(key) {
                                let j = self.idx(key);
                                if j < i {
                                    assert(old_self.entries@[j].0.key() == key);
                                    old_self.lemma_idx(key, j);
                                } else {
                                    assert(old_self.entries@[j + 1].0.key() == key);
                                    old_self.lemma_idx(key, j + 1);
                                }
                            }
                        } else if old_self.has(key) {
                            let j = old_self.idx(key);
                            old_self.lemma_idx(key, j);
                            if j < i {
                                self.lemma_idx(key, j);
                            } else {
                                assert(j != i);
                                self.lemma_idx(key, j - 1);
                            }
                        } else {
                            if self.has(key) {
                                let j = self.idx(key);
                                if j < i {
                                    assert(old_self.entries@[j].0.key() == key);
                                } else {
                                    assert(old_self.entries@[j + 1].0.key() == key);
                                }
                            }
                        }
                    }
                    assert(self@ =~= old_self@.remove(k.key()));
                }
                Some(v)
            },
            None => {
                proof {
                    assert(self@ =~= old_self@.remove(k.key()));
                }
                None
            },
        }
    }
}

impl<K: Key, V> View for KeyMap<K, V> {
    type V = Map<Seq<int>, V>;

    closed spec fn view(&self) -> Map<Seq<int>, V> {
        Map::new(|k: Seq<int>| self.has(k), |k: Seq<int>| self.entries@[self.idx(k)].1)
    }
}


/// The rows of a table, each as a sequence.
pub open spec fn rows<T>(v: Vec<Vec<T>>) -> Seq<Seq<T>> {
    v@.map_values(|r: Vec<T>| r@)
}

/// The per-context tables of a parameter, each row as a sequence.
pub open spec fn table<T>(m: CtxMap<Vec<Vec<T>>>) -> Map<Seq<int>, Seq<Seq<T>>> {
    m@.map_values(|v: Vec<Vec<T>>| rows(v))
}

/// A copy of a row.
pub fn copy_row<T: Copy>(row: &Vec<T>) -> (r: Vec<T>)
    ensures
        r@ == row@,
{
    let mut r: Vec<T> = Vec::new();
    let mut i: usize = 0;
    while i < row.len()
        invariant
            i <= row@.len(),
            r@ == row@.take(i as int),
        decreases row@.len() - i,
    {
        r.push(row[i]);
        proof {
            assert(row@.take(i + 1) =~= row@.take(i as int).push(row@[i as int]));
        }
        i = i + 1;
    }
    assert(row@.take(row@.len() as int) =~= row@);
    r
}

/// A copy of a table.
pub fn copy_rows<T: Copy>(v: &Vec<Vec<T>>) -> (r: Vec<Vec<T>>)
    ensures
        rows(r) == rows(*v),
{
    let mut r: Vec<Vec<T>> = Vec::new();
    let mut i: usize = 0;
    while i < v.len()
        invariant
            i <= v@.len(),
            rows(r) == rows(*v).take(i as int),
        decreases v@.len() - i,
    {
        let row = copy_row(&v[i]);
        let ghost before = r@;
        proof {
            assert(rows(r).len() == i);
            assert(before.len() == i);
        }
        r.push(row);
        proof {
            assert(r@ == before.push(row));
            assert(r@.len() == i + 1);
            assert forall|j: int| 0 <= j < i + 1 implies #[trigger] rows(r)[j] == rows(*v).take(i + 1)[j] by {
                if j < i {
                    assert(rows(r)[j] == r@[j]@);
                    assert(r@[j] == before[j]);
                } else {
                    assert(rows(r)[j] == row@);
                }
            }
            assert(rows(r) =~= rows(*v).take(i + 1));
        }
        i = i + 1;
    }
    assert(rows(*v).take(v@.len() as int) =~= rows(*v));
    r
}

/// A copy of the table of `ctx`, if it has one.
pub fn get_rows<T: Copy>(m: &CtxMap<Vec<Vec<T>>>, ctx: &Ctx) -> (r: Option<Vec<Vec<T>>>)
    requires
        m.inv(),
    ensures
        r matches Some(v) ==> table(*m).contains_key(ctx_key(*ctx)) && rows(v) == table(*m)[ctx_key(*ctx)],
        r is None ==> !table(*m).contains_key(ctx_key(*ctx)),
{
    match m.get(ctx) {
        Some(v) => Some(copy_rows(v)),
        None => None,
    }
}

/// The table of `ctx`, or no rows.
pub open spec fn rows_or_empty<T>(m: Map<Seq<int>, Seq<Seq<T>>>, ctx: Ctx) -> Seq<Seq<T>> {
    if m.contains_key(ctx_key(ctx)) {
        m[ctx_key(ctx)]
    } else {
        Seq::empty()
    }
}

/// Appends `row` to the table of `ctx`, creating the table when it has none.
pub fn push_row<T>(m: &mut CtxMap<Vec<Vec<T>>>, ctx: Ctx, row: Vec<T>)
    requires
        old(m).inv(),
    ensures
        final(m).inv(),
        table(*final(m)) == table(*old(m)).insert(ctx_key(ctx), rows_or_empty(table(*old(m)), ctx).push(row@)),
{
    let ghost old_t = table(*m);
    let mut v = match m.remove(&ctx) {
        Some(v) => v,
        None => Vec::new(),
    };
    proof {
        assert(rows(v) =~= rows_or_empty(old_t, ctx));
    }
    v.push(row);
    proof {
        assert(rows(v) =~= rows_or_empty(old_t, ctx).push(row@));
    }
    m.insert(ctx, v);
    proof {
        assert(table(*m) =~= old_t.insert(ctx_key(ctx), rows_or_empty(old_t, ctx).push(row@)));
    }
}

/// Appends `row` to the table of `ctx`, when it has one.
pub fn push_row_if_present<T>(m: &mut CtxMap<Vec<Vec<T>>>, ctx: Ctx, row: Vec<T>)
    requires
        old(m).inv(),
    ensures
        final(m).inv(),
        table(*old(m)).contains_key(ctx_key(ctx)) ==> table(*final(m)) == table(*old(m)).insert(
            ctx_key(ctx),
            table(*old(m))[ctx_key(ctx)].push(row@),
        ),
        !table(*old(m)).contains_key(ctx_key(ctx)) ==> table(*final(m)) == table(*old(m)),
{
    if m.contains(&ctx) {
        push_row(m, ctx, row);
    }
}

/// Replaces the table of `ctx`, when it has one.
pub fn set_rows_if_present<T>(m: &mut CtxMap<Vec<Vec<T>>>, ctx: Ctx, v: Vec<Vec<T>>)
    requires
        old(m).inv(),
    ensures
        final(m).inv(),
        table(*old(m)).contains_key(ctx_key(ctx)) ==> table(*final(m)) == table(*old(m)).insert(ctx_key(ctx), rows(v)),
        !table(*old(m)).contains_key(ctx_key(ctx)) ==> table(*final(m)) == table(*old(m)),
{
    if m.contains(&ctx) {
        let ghost old_t = table(*m);
        m.insert(ctx, v);
        proof {
            assert(table(*m) =~= old_t.insert(ctx_key(ctx), rows(v)));
        }
    }
}

/// Takes the table of `ctx` out, leaving it empty; no rows when it has none.
pub fn take_rows<T>(m: &mut CtxMap<Vec<Vec<T>>>, ctx: Ctx) -> (r: Vec<Vec<T>>)
    requires
        old(m).inv(),
    ensures
        final(m).inv(),
        rows(r) == rows_or_empty(table(*old(m)), ctx),
        table(*old(m)).contains_key(ctx_key(ctx)) ==> table(*final(m)) == table(*old(m)).insert(ctx_key(ctx), Seq::empty()),
        !table(*old(m)).contains_key(ctx_key(ctx)) ==> table(*final(m)) == table(*old(m)),
{
    let ghost old_t = table(*m);
    match m.remove(&ctx) {
        Some(v) => {
            let e: Vec<Vec<T>> = Vec::new();
            proof {
                assert(rows(e) =~= Seq::<Seq<T>>::empty());
            }
            m.insert(ctx, e);
            proof {
                assert(table(*m) =~= old_t.insert(ctx_key(ctx), Seq::empty()));
            }
            v
        },
        None => {
            let e: Vec<Vec<T>> = Vec::new();
            proof {
                assert(table(*m) =~= old_t);
                assert(rows(e) =~= Seq::<Seq<T>>::empty());
            }
            e
        },
    }
}

/// Removes the table of `ctx`.
pub fn remove_rows<T>(m: &mut CtxMap<Vec<Vec<T>>>, ctx: &Ctx)
    requires
        old(m).inv(),
    ensures
        final(m).inv(),
        table(*final(m)) == table(*old(m)).remove(ctx_key(*ctx)),
{
    let ghost old_t = table(*m);
    let _ = m.remove(ctx);
    proof {
        assert(table(*m) =~= old_t.remove(ctx_key(*ctx)));
    }
}

} // verus!
