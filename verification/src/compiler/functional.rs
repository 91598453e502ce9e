//! Small functional building blocks used by the composer.
use vstd::prelude::*;

verus! {

/// A collection of objects together with the morphisms between them.
pub struct Category<T, M> {
    pub objs: Vec<T>,
    pub morphs: Vec<M>,
}

/// The identity monad: a value that can be threaded through a chain of binds.
#[derive(Debug, Clone, Default)]
pub struct Monad<A: Clone>(pub A);

impl<A: Clone> Monad<A> {
    /// Wraps a value.
    pub fn ret(a: A) -> (m: Monad<A>)
        ensures
            m.0 == a,
    {
        Monad::<A>(a)
    }

    /// Feeds the wrapped value to `f` and returns what `f` returns.
    pub fn bind<B: Clone, F: FnOnce(A) -> Monad<B>>(self, f: F) -> (m: Monad<B>)
        requires
            f.requires((self.0,)),
        ensures
            f.ensures((self.0,), m),
    {
        f(self.0)
    }
}

impl<A: Clone, B: Clone, F: FnOnce(A) -> Monad<B>> std::ops::Add<F> for Monad<A> {
    type Output = Monad<B>;

    /// Binds the wrapped value to `rhs`.
    fn add(self, rhs: F) -> (m: Monad<B>)
        ensures
            rhs.ensures((self.0,), m),
    {
        self.bind(rhs)
    }
}

impl<A: Clone, B: Clone, F: FnOnce(A) -> Monad<B>> vstd::std_specs::ops::AddSpecImpl<F> for Monad<A> {
    open spec fn obeys_add_spec() -> bool {
        false
    }

    open spec fn add_req(self, rhs: F) -> bool {
        rhs.requires((self.0,))
    }

    open spec fn add_spec(self, rhs: F) -> Monad<B> {
        arbitrary()
    }
}

/// A pair of endomorphisms applied one after the other; `None` stands for the
/// identity.
#[derive(Debug, Clone)]
pub struct Functor<F>(pub Option<F>, pub Option<F>);

impl<F> Functor<F> {
    /// The functor made of two identities.
    pub fn default() -> (r: Self)
        ensures
            r.0 is None,
            r.1 is None,
    {
        Functor(None, None)
    }

    /// The functor that applies `f` after the identity.
    pub fn new(f: F) -> (r: Self)
        ensures
            r.0 is None,
            r.1 == Some(f),
    {
        Functor(None, Some(f))
    }

    /// Keeps the second map of each operand, `self`'s first.
    pub fn shl(self, rhs: Self) -> (r: Self)
        ensures
            r.0 == self.1,
            r.1 == rhs.1,
    {
        Functor(self.1, rhs.1)
    }

    /// Keeps the second map of each operand, `rhs`'s first.
    pub fn shr(self, rhs: Self) -> (r: Self)
        ensures
            r.0 == rhs.1,
            r.1 == self.1,
    {
        Functor(rhs.1, self.1)
    }
}

/// What applying an optional map to `x` may give: `x` itself for the identity.
pub open spec fn applies<T, F: Fn(T) -> T>(f: Option<F>, x: T, y: T) -> bool {
    match f {
        Some(f) => f.ensures((x,), y),
        None => y == x,
    }
}

/// Whether an optional map may be applied to `x`.
pub open spec fn applicable<T, F: Fn(T) -> T>(f: Option<F>, x: T) -> bool {
    match f {
        Some(f) => f.requires((x,)),
        None => true,
    }
}

fn apply<T, F: Fn(T) -> T>(f: &Option<F>, x: T) -> (y: T)
    requires
        applicable(*f, x),
    ensures
        applies(*f, x, y),
{
    match f {
        Some(f) => f(x),
        None => x,
    }
}

impl<F> Functor<F> {
    /// Applies the first map, then the second.
    pub fn call<T>(&mut self, input: T) -> (output: T) where F: Fn(T) -> T
        requires
            applicable(old(self).0, input),
            forall|y: T| applies(old(self).0, input, y) ==> applicable(old(self).1, y),
        ensures
            *final(self) == *old(self),
            exists|y: T| applies(old(self).0, input, y) && applies(old(self).1, y, output),
    {
        let y = apply(&self.0, input);
        apply(&self.1, y)
    }
}

/// Wraps a function that builds the composition of two functions.
pub struct Combinator<H>(pub H);

impl<H> Combinator<H> {
    /// Builds the composition of `f` and `g` with the wrapped builder.
    pub fn compose<F, G, K>(self, f: F, g: G) -> (k: K) where H: FnOnce(F, G) -> K
        requires
            self.0.requires((f, g)),
        ensures
            self.0.ensures((f, g), k),
    {
        (self.0)(f, g)
    }
}

/// Everything but the first element; empty when `ts` is empty.
pub fn tail<T>(ts: Vec<T>) -> (r: Vec<T>)
    ensures
        ts@.len() == 0 ==> r@.len() == 0,
        ts@.len() > 0 ==> r@ == ts@.drop_first(),
{
    if ts.len() == 0 {
        Vec::new()
    } else {
        let mut ts = ts;
        ts.remove(0);
        ts
    }
}

/// The first element, or `T::default()` when `ts` is empty.
pub fn head<T: Default>(ts: Vec<T>) -> (r: T)
    ensures
        ts@.len() > 0 ==> r == ts@[0],
        ts@.len() == 0 ==> T::default.ensures((), r),
{
    if ts.len() == 0 {
        T::default()
    } else {
        let mut ts = ts;
        ts.remove(0)
    }
}

/// Binding is associative: binding `f` and then `g` gives what binding `h`
/// gives, when `h` does what `f` followed by a bind of `g` does.
pub proof fn law_bind_associative<A: Clone, B: Clone, C: Clone, F: FnOnce(A) -> Monad<B>, G: FnOnce(B) -> Monad<C>, H: FnOnce(A) -> Monad<C>>(
    m: Monad<A>,
    f: F,
    g: G,
    h: H,
    m1: Monad<B>,
    m2: Monad<C>,
)
    requires
        f.ensures((m.0,), m1),
        g.ensures((m1.0,), m2),
        forall|a: A, b: Monad<B>, c: Monad<C>| #[trigger] f.ensures((a,), b) && #[trigger] g.ensures((b.0,), c) ==> h.ensures((a,), c),
    ensures
        h.ensures((m.0,), m2),
{
}

/// Joining the head of a non-empty list to its tail gives the list back.
pub proof fn law_head_tail<T>(s: Seq<T>)
    requires
        s.len() > 0,
    ensures
        seq![s[0]] + s.drop_first() == s,
{
    assert(seq![s[0]] + s.drop_first() =~= s);
}

} // verus!
