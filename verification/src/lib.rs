//! Fallible iterators: streams that are advanced one step at a time, where a
//! step gives an item, asks to be repeated, ends the stream or fails.
//!
//! What an iterator does is stated as a relation between its state before a
//! step, its state after it and the outcome (`EIterator::advances`). An
//! adapter states its own relation over that of the iterator it wraps, so a
//! chain of adapters is described down to its source. The module `run` puts
//! steps together to runs, `utf8` holds a decoder and an encoder, and `io`
//! drains a stream of bytes into a writer.

use std::marker::PhantomData;
use vstd::prelude::*;
use vstd::std_specs::convert::FromSpec;
use vstd::std_specs::iter::IteratorSpec;

pub mod io;
pub mod run;
pub mod utf8;

use crate::run::{lemma_runs_push, runs};

verus! {

broadcast use vstd::function::group_function_axioms;

/// The outcome of advancing a fallible iterator once.
pub enum Step<T, E> {
    /// The stream has ended without an error.
    Done,
    /// One item was produced.
    Yield(T),
    /// No item this time, and neither an end nor an error: the caller has to
    /// advance again.
    Skip,
    /// The stream has failed.
    Error(E),
}

/// What a stepping function `f` makes of the outcome `inner`: `Done` and
/// `Skip` pass through, an error is converted, and an item is handed to `f`.
pub open spec fn stepped<A, X, B, E: From<X>, F: FnMut(A) -> Step<B, E>>(
    f: F,
    inner: Step<A, X>,
    out: Step<B, E>,
) -> bool {
    match inner {
        Step::Done => out is Done,
        Step::Skip => out is Skip,
        Step::Error(e) => out is Error && (E::obeys_from_spec() ==> out->Error_0 == E::from_spec(e)),
        Step::Yield(x) => call_ensures(f, (x,), out),
    }
}

/// What a stepping function `f` makes of the outcome `inner` when it is also
/// asked at the end of the stream: only `Skip` passes through, and an error
/// is converted.
pub open spec fn stepped_option<A, X, B, E: From<X>, F: FnMut(Option<A>) -> Step<B, E>>(
    f: F,
    inner: Step<A, X>,
    out: Step<B, E>,
) -> bool {
    match inner {
        Step::Done => call_ensures(f, (None::<A>,), out),
        Step::Skip => out is Skip,
        Step::Error(e) => out is Error && (E::obeys_from_spec() ==> out->Error_0 == E::from_spec(e)),
        Step::Yield(x) => call_ensures(f, (Some(x),), out),
    }
}

/// A cursor over a stream that may fail. Its one primitive is `enext`; the
/// other methods are built on it.
///
/// An implementation says in `wf`, `fuel` and `advances` what its `enext`
/// does. One that leaves them as they are claims nothing of its outcomes,
/// and can then report neither an item nor `Skip`.
pub trait EIterator {
    type Item;

    type Error;

    /// The states in which the iterator may be advanced.
    open spec fn wf(&self) -> bool {
        true
    }

    /// A bound on the number of items and `Skip`s that are still to come
    /// before the stream ends or fails.
    open spec fn fuel(&self) -> nat {
        0
    }

    /// One call of `enext` may take the iterator from `self` to `next` and
    /// return `out`.
    open spec fn advances(&self, next: &Self, out: Step<Self::Item, Self::Error>) -> bool {
        true
    }

    /// Advances the iterator by one step.
    fn enext(&mut self) -> (out: Step<Self::Item, Self::Error>)
        requires
            old(self).wf(),
        ensures
            final(self).wf(),
            old(self).advances(final(self), out),
            (out is Yield || out is Skip) ==> final(self).fuel() < old(self).fuel(),
    ;

    /// Advances the iterator by one step and hands an item to `f`, which
    /// decides the outcome. `Done` and `Skip` pass through, and an error is
    /// converted into `E`.
    fn step<F, B, E>(&mut self, mut f: F) -> (out: Step<B, E>)
        where
            F: FnMut(Self::Item) -> Step<B, E>,
            E: From<Self::Error>,
        requires
            old(self).wf(),
            forall|x: Self::Item| call_requires(f, (x,)),
        ensures
            final(self).wf(),
            exists|inner: Step<Self::Item, Self::Error>|
                old(self).advances(final(self), inner) && stepped(f, inner, out) && ((inner is Yield
                    || inner is Skip) ==> final(self).fuel() < old(self).fuel()),
    {
        match self.enext() {
            Step::Done => Step::Done,
            Step::Error(e) => Step::Error(From::from(e)),
            Step::Skip => Step::Skip,
            Step::Yield(x) => f(x),
        }
    }

    /// Advances the iterator by one step and hands an item, or `None` at the
    /// end of the stream, to `f`, which decides the outcome. `Skip` passes
    /// through, and an error is converted into `E`.
    fn step_option<F, B, E>(&mut self, mut f: F) -> (out: Step<B, E>)
        where
            F: FnMut(Option<Self::Item>) -> Step<B, E>,
            E: From<Self::Error>,
        requires
            old(self).wf(),
            forall|x: Option<Self::Item>| call_requires(f, (x,)),
        ensures
            final(self).wf(),
            exists|inner: Step<Self::Item, Self::Error>|
                old(self).advances(final(self), inner) && stepped_option(f, inner, out) && ((
                inner is Yield || inner is Skip) ==> final(self).fuel() < old(self).fuel()),
    {
        match self.enext() {
            Step::Done => f(None),
            Step::Error(e) => Step::Error(From::from(e)),
            Step::Skip => Step::Skip,
            Step::Yield(x) => f(Some(x)),
        }
    }

    /// The stream with `f` applied to each item.
    fn map<B, F>(self, f: F) -> (r: ValueMap<Self, F>)
        where
            Self: Sized,
            F: FnMut(Self::Item) -> B,
        ensures
            r.inner() == self,
            r.func() == f,
    {
        ValueMap { iter: self, func: f }
    }

    /// The stream with `f` applied to each error.
    fn map_error<E2, F>(self, f: F) -> (r: MapError<Self, F>)
        where
            Self: Sized,
            F: FnMut(Self::Error) -> E2,
        ensures
            r.inner() == self,
            r.func() == f,
    {
        MapError { iter: self, func: f }
    }

    /// The stream with each error converted into `E2` by `From`.
    fn map_error_from<E2>(self) -> (r: MapErrorFrom<Self, E2>)
        where
            Self: Sized,
            E2: From<Self::Error>,
        ensures
            r.inner() == self,
    {
        MapErrorFrom { iter: self, target: PhantomData }
    }

    /// The stream as a sequence of `Result`s, without the `Skip`s.
    fn iter(self) -> (r: ToResultIterator<Self>)
        where
            Self: Sized,
        ensures
            r.inner() == self,
    {
        ToResultIterator(self)
    }
}

/// Standard iterators of `Result`s, seen as fallible iterators.
pub trait ToEIter: Sized {
    /// The iterator as a fallible one: a success is an item, a failure an
    /// error.
    fn eiter(self) -> (r: ResultIterator<Self>)
        ensures
            r.source() == self,
    {
        ResultIterator(self)
    }
}

impl<I, T, E> ToEIter for I where I: Iterator<Item = Result<T, E>> {
}

/// A fallible iterator whose items are those of `I`, each passed through `F`.
pub struct ValueMap<I, F> {
    iter: I,
    func: F,
}

impl<I, F> ValueMap<I, F> {
    /// The wrapped iterator.
    pub closed spec fn inner(&self) -> I {
        self.iter
    }

    /// The function applied to each item.
    pub closed spec fn func(&self) -> F {
        self.func
    }
}

/// What a value map with the function `f` makes of the outcome `inner`: an
/// item is replaced by what `f` returns for it, and every other outcome
/// passes through.
pub open spec fn value_mapped<A, B, X, F: FnMut(A) -> B>(
    f: F,
    inner: Step<A, X>,
    out: Step<B, X>,
) -> bool {
    match inner {
        Step::Done => out is Done,
        Step::Skip => out is Skip,
        Step::Error(e) => out == Step::<B, X>::Error(e),
        Step::Yield(x) => exists|y: B| out == Step::<B, X>::Yield(y) && call_ensures(f, (x,), y),
    }
}

/// A value map alters neither `Skip` nor `Done`: it reports each exactly
/// when the wrapped iterator does. An error it hands on as it is.
pub proof fn lemma_value_map_passes_through<A, B, X, F: FnMut(A) -> B>(
    f: F,
    inner: Step<A, X>,
    out: Step<B, X>,
)
    requires
        value_mapped(f, inner, out),
    ensures
        inner is Skip <==> out is Skip,
        inner is Done <==> out is Done,
        inner is Error <==> out is Error,
        inner is Error ==> inner->Error_0 == out->Error_0,
{
}

/// A run of a value map is a run of the wrapped iterator, outcome for
/// outcome: the two have the same length, and at each place the map has made
/// its outcome of that of the wrapped iterator. So `Skip` and `Done` stand at
/// the same places in both.
pub proof fn lemma_value_map_run<B, I: EIterator, F: FnMut(I::Item) -> B>(
    start: ValueMap<I, F>,
    outs: Seq<Step<B, I::Error>>,
    end: ValueMap<I, F>,
)
    requires
        runs(start, outs, end),
    ensures
        end.func() == start.func(),
        exists|ins: Seq<Step<I::Item, I::Error>>|
            runs(start.inner(), ins, end.inner()) && ins.len() == outs.len() && forall|i: int|
                0 <= i < outs.len() ==> value_mapped(start.func(), #[trigger] ins[i], outs[i]),
    decreases outs.len(),
{
    if outs.len() == 0 {
        let ins = Seq::<Step<I::Item, I::Error>>::empty();
        assert(runs(start.inner(), ins, end.inner()));
    } else {
        let mid = choose|mid: ValueMap<I, F>|
            runs(start, outs.drop_last(), mid) && mid.advances(&end, outs.last());
        lemma_value_map_run(start, outs.drop_last(), mid);
        let front = choose|ins: Seq<Step<I::Item, I::Error>>|
            runs(start.inner(), ins, mid.inner()) && ins.len() == outs.len() - 1 && forall|i: int|
                0 <= i < outs.len() - 1 ==> value_mapped(
                    start.func(),
                    #[trigger] ins[i],
                    outs.drop_last()[i],
                );
        let inner = choose|inner: Step<I::Item, I::Error>|
            mid.inner().advances(&end.inner(), inner) && value_mapped(
                mid.func(),
                inner,
                outs.last(),
            );
        let ins = front.push(inner);
        lemma_runs_push(start.inner(), front, mid.inner(), inner, end.inner());
        assert forall|i: int| 0 <= i < outs.len() implies value_mapped(
            start.func(),
            #[trigger] ins[i],
            outs[i],
        ) by {
            if i < outs.len() - 1 {
                assert(ins[i] == front[i] && outs[i] == outs.drop_last()[i]);
            }
        }
    }
}

impl<B, I: EIterator, F> EIterator for ValueMap<I, F> where F: FnMut(I::Item) -> B {
    type Item = B;

    type Error = I::Error;

    open spec fn wf(&self) -> bool {
        &&& self.inner().wf()
        &&& forall|x: I::Item| call_requires(self.func(), (x,))
    }

    open spec fn fuel(&self) -> nat {
        self.inner().fuel()
    }

    open spec fn advances(&self, next: &Self, out: Step<B, I::Error>) -> bool {
        &&& next.func() == self.func()
        &&& exists|inner: Step<I::Item, I::Error>|
            self.inner().advances(&next.inner(), inner) && value_mapped(self.func(), inner, out)
    }

    /// One step of the wrapped iterator, with the function applied to an
    /// item. The clauses here say once more what `advances` says, for a
    /// caller that knows the type of the map.
    fn enext(&mut self) -> (out: Step<B, I::Error>)
        ensures
            final(self).func() == old(self).func(),
            exists|inner: Step<I::Item, I::Error>|
                old(self).inner().advances(&final(self).inner(), inner) && value_mapped(
                    old(self).func(),
                    inner,
                    out,
                ),
    {
        assert(self.func() == self.func && self.fuel() == self.iter.fuel());
        let inner = self.iter.enext();
        let out = match inner {
            Step::Done => Step::Done,
            Step::Skip => Step::Skip,
            Step::Error(e) => Step::Error(e),
            Step::Yield(x) => Step::Yield((self.func)(x)),
        };
        assert(self.func() == self.func && self.inner() == self.iter);
        assert(value_mapped(self.func(), inner, out));
        out
    }
}

/// A fallible iterator whose errors are those of `I`, each passed through `F`.
pub struct MapError<I, F> {
    iter: I,
    func: F,
}

impl<I, F> MapError<I, F> {
    /// The wrapped iterator.
    pub closed spec fn inner(&self) -> I {
        self.iter
    }

    /// The function applied to each error.
    pub closed spec fn func(&self) -> F {
        self.func
    }
}

/// What an error map with the function `f` makes of the outcome `inner`: an
/// error is replaced by what `f` returns for it, and every other outcome
/// passes through.
pub open spec fn error_mapped<A, X, E, F: FnMut(X) -> E>(
    f: F,
    inner: Step<A, X>,
    out: Step<A, E>,
) -> bool {
    match inner {
        Step::Done => out is Done,
        Step::Skip => out is Skip,
        Step::Error(e) => exists|e2: E| out == Step::<A, E>::Error(e2) && call_ensures(f, (e,), e2),
        Step::Yield(x) => out == Step::<A, E>::Yield(x),
    }
}

/// An error map alters neither `Skip` nor `Done`: it reports each exactly
/// when the wrapped iterator does. An item it hands on as it is.
pub proof fn lemma_error_map_passes_through<A, X, E, F: FnMut(X) -> E>(
    f: F,
    inner: Step<A, X>,
    out: Step<A, E>,
)
    requires
        error_mapped(f, inner, out),
    ensures
        inner is Skip <==> out is Skip,
        inner is Done <==> out is Done,
        inner is Yield <==> out is Yield,
        inner is Yield ==> inner->Yield_0 == out->Yield_0,
{
}

/// A run of an error map is a run of the wrapped iterator, outcome for
/// outcome: the two have the same length, and at each place the map has made
/// its outcome of that of the wrapped iterator. So `Skip` and `Done` stand at
/// the same places in both.
pub proof fn lemma_error_map_run<E, I: EIterator, F: FnMut(I::Error) -> E>(
    start: MapError<I, F>,
    outs: Seq<Step<I::Item, E>>,
    end: MapError<I, F>,
)
    requires
        runs(start, outs, end),
    ensures
        end.func() == start.func(),
        exists|ins: Seq<Step<I::Item, I::Error>>|
            runs(start.inner(), ins, end.inner()) && ins.len() == outs.len() && forall|i: int|
                0 <= i < outs.len() ==> error_mapped(start.func(), #[trigger] ins[i], outs[i]),
    decreases outs.len(),
{
    if outs.len() == 0 {
        let ins = Seq::<Step<I::Item, I::Error>>::empty();
        assert(runs(start.inner(), ins, end.inner()));
    } else {
        let mid = choose|mid: MapError<I, F>|
            runs(start, outs.drop_last(), mid) && mid.advances(&end, outs.last());
        lemma_error_map_run(start, outs.drop_last(), mid);
        let front = choose|ins: Seq<Step<I::Item, I::Error>>|
            runs(start.inner(), ins, mid.inner()) && ins.len() == outs.len() - 1 && forall|i: int|
                0 <= i < outs.len() - 1 ==> error_mapped(
                    start.func(),
                    #[trigger] ins[i],
                    outs.drop_last()[i],
                );
        let inner = choose|inner: Step<I::Item, I::Error>|
            mid.inner().advances(&end.inner(), inner) && error_mapped(
                mid.func(),
                inner,
                outs.last(),
            );
        let ins = front.push(inner);
        lemma_runs_push(start.inner(), front, mid.inner(), inner, end.inner());
        assert forall|i: int| 0 <= i < outs.len() implies error_mapped(
            start.func(),
            #[trigger] ins[i],
            outs[i],
        ) by {
            if i < outs.len() - 1 {
                assert(ins[i] == front[i] && outs[i] == outs.drop_last()[i]);
            }
        }
    }
}

impl<E, I: EIterator, F> EIterator for MapError<I, F> where F: FnMut(I::Error) -> E {
    type Item = I::Item;

    type Error = E;

    open spec fn wf(&self) -> bool {
        &&& self.inner().wf()
        &&& forall|e: I::Error| call_requires(self.func(), (e,))
    }

    open spec fn fuel(&self) -> nat {
        self.inner().fuel()
    }

    open spec fn advances(&self, next: &Self, out: Step<I::Item, E>) -> bool {
        &&& next.func() == self.func()
        &&& exists|inner: Step<I::Item, I::Error>|
            self.inner().advances(&next.inner(), inner) && error_mapped(self.func(), inner, out)
    }

    /// One step of the wrapped iterator, with the function applied to an
    /// error. The clauses here say once more what `advances` says, for a
    /// caller that knows the type of the map.
    fn enext(&mut self) -> (out: Step<I::Item, E>)
        ensures
            final(self).func() == old(self).func(),
            exists|inner: Step<I::Item, I::Error>|
                old(self).inner().advances(&final(self).inner(), inner) && error_mapped(
                    old(self).func(),
                    inner,
                    out,
                ),
    {
        assert(self.func() == self.func && self.fuel() == self.iter.fuel());
        let inner = self.iter.enext();
        let out = match inner {
            Step::Done => Step::Done,
            Step::Skip => Step::Skip,
            Step::Error(e) => Step::Error((self.func)(e)),
            Step::Yield(x) => Step::Yield(x),
        };
        assert(self.func() == self.func && self.inner() == self.iter);
        assert(error_mapped(self.func(), inner, out));
        out
    }
}

/// A fallible iterator whose errors are those of `I`, each converted into `E`
/// by `From`.
pub struct MapErrorFrom<I, E> {
    iter: I,
    target: PhantomData<E>,
}

impl<I, E> MapErrorFrom<I, E> {
    /// The wrapped iterator.
    pub closed spec fn inner(&self) -> I {
        self.iter
    }
}

/// What an error conversion makes of the outcome `inner`: an error is
/// converted, and every other outcome passes through.
pub open spec fn error_converted<A, X, E: From<X>>(inner: Step<A, X>, out: Step<A, E>) -> bool {
    match inner {
        Step::Done => out is Done,
        Step::Skip => out is Skip,
        Step::Error(e) => out is Error && (E::obeys_from_spec() ==> out->Error_0 == E::from_spec(e)),
        Step::Yield(x) => out == Step::<A, E>::Yield(x),
    }
}

/// An error conversion alters neither `Skip` nor `Done`: it reports each
/// exactly when the wrapped iterator does. An item it hands on as it is.
pub proof fn lemma_error_conversion_passes_through<A, X, E: From<X>>(
    inner: Step<A, X>,
    out: Step<A, E>,
)
    requires
        error_converted(inner, out),
    ensures
        inner is Skip <==> out is Skip,
        inner is Done <==> out is Done,
        inner is Yield <==> out is Yield,
        inner is Yield ==> inner->Yield_0 == out->Yield_0,
{
}

/// A run of an error conversion is a run of the wrapped iterator, outcome
/// for outcome: the two have the same length, and at each place the
/// conversion has made its outcome of that of the wrapped iterator. So
/// `Skip` and `Done` stand at the same places in both.
pub proof fn lemma_error_conversion_run<E: From<I::Error>, I: EIterator>(
    start: MapErrorFrom<I, E>,
    outs: Seq<Step<I::Item, E>>,
    end: MapErrorFrom<I, E>,
)
    requires
        runs(start, outs, end),
    ensures
        exists|ins: Seq<Step<I::Item, I::Error>>|
            runs(start.inner(), ins, end.inner()) && ins.len() == outs.len() && forall|i: int|
                0 <= i < outs.len() ==> error_converted(#[trigger] ins[i], outs[i]),
    decreases outs.len(),
{
    if outs.len() == 0 {
        let ins = Seq::<Step<I::Item, I::Error>>::empty();
        assert(runs(start.inner(), ins, end.inner()));
    } else {
        let mid = choose|mid: MapErrorFrom<I, E>|
            runs(start, outs.drop_last(), mid) && mid.advances(&end, outs.last());
        lemma_error_conversion_run(start, outs.drop_last(), mid);
        let front = choose|ins: Seq<Step<I::Item, I::Error>>|
            runs(start.inner(), ins, mid.inner()) && ins.len() == outs.len() - 1 && forall|i: int|
                0 <= i < outs.len() - 1 ==> error_converted(
                    #[trigger] ins[i],
                    outs.drop_last()[i],
                );
        let inner = choose|inner: Step<I::Item, I::Error>|
            mid.inner().advances(&end.inner(), inner) && error_converted(inner, outs.last());
        let ins = front.push(inner);
        lemma_runs_push(start.inner(), front, mid.inner(), inner, end.inner());
        assert forall|i: int| 0 <= i < outs.len() implies error_converted(
            #[trigger] ins[i],
            outs[i],
        ) by {
            if i < outs.len() - 1 {
                assert(ins[i] == front[i] && outs[i] == outs.drop_last()[i]);
            }
        }
    }
}

impl<E, I: EIterator> EIterator for MapErrorFrom<I, E> where E: From<I::Error> {
    type Item = I::Item;

    type Error = E;

    open spec fn wf(&self) -> bool {
        self.inner().wf()
    }

    open spec fn fuel(&self) -> nat {
        self.inner().fuel()
    }

    open spec fn advances(&self, next: &Self, out: Step<I::Item, E>) -> bool {
        exists|inner: Step<I::Item, I::Error>|
            self.inner().advances(&next.inner(), inner) && error_converted(inner, out)
    }

    fn enext(&mut self) -> (out: Step<I::Item, E>) {
        assert(self.inner() == self.iter && self.fuel() == self.iter.fuel());
        let inner = self.iter.enext();
        let out = match inner {
            Step::Done => Step::Done,
            Step::Skip => Step::Skip,
            Step::Error(e) => Step::Error(From::from(e)),
            Step::Yield(x) => Step::Yield(x),
        };
        assert(self.inner() == self.iter);
        assert(error_converted(inner, out));
        assert(old(self).inner().advances(&self.inner(), inner));
        out
    }
}

/// The outcomes `outs` are any number of `Skip`s and then one outcome that
/// is none, and `r` is that last outcome as an item of a standard iterator:
/// `None` for `Done`, a success for an item and a failure for an error.
pub open spec fn resolves<T, E>(outs: Seq<Step<T, E>>, r: Option<Result<T, E>>) -> bool {
    &&& outs.len() > 0
    &&& forall|i: int| 0 <= i < outs.len() - 1 ==> outs[i] is Skip
    &&& match outs.last() {
        Step::Done => r is None,
        Step::Skip => false,
        Step::Error(e) => r == Some(Err::<T, E>(e)),
        Step::Yield(x) => r == Some(Ok::<T, E>(x)),
    }
}

/// A fallible iterator seen as a sequence of `Result`s.
pub struct ToResultIterator<I>(I);

impl<I> ToResultIterator<I> {
    /// The wrapped iterator.
    pub closed spec fn inner(&self) -> I {
        self.0
    }
}

impl<I: EIterator> ToResultIterator<I> {
    /// The next item of the sequence. Advances the wrapped iterator until it
    /// reports something other than `Skip`, and gives `None` for `Done`,
    /// `Some(Ok(..))` for an item and `Some(Err(..))` for an error.
    pub fn next(&mut self) -> (r: Option<Result<I::Item, I::Error>>)
        requires
            old(self).inner().wf(),
        ensures
            final(self).inner().wf(),
            exists|outs: Seq<Step<I::Item, I::Error>>|
                runs(old(self).inner(), outs, final(self).inner()) && resolves(outs, r),
    {
        let ghost mut outs: Seq<Step<I::Item, I::Error>> = Seq::empty();
        loop
            invariant
                self.0.wf(),
                runs(old(self).0, outs, self.0),
                forall|i: int| 0 <= i < outs.len() ==> outs[i] is Skip,
            decreases self.0.fuel(),
        {
            let ghost before = self.0;
            let out = self.0.enext();
            proof {
                lemma_runs_push(old(self).0, outs, before, out, self.0);
                outs = outs.push(out);
            }
            assert(self.inner() == self.0 && old(self).inner() == old(self).0);
            match out {
                Step::Done => {
                    assert(resolves(outs, None));
                    return None;
                },
                Step::Skip => (),
                Step::Error(e) => {
                    assert(resolves(outs, Some(Err(e))));
                    return Some(Err(e));
                },
                Step::Yield(x) => {
                    assert(resolves(outs, Some(Ok(x))));
                    return Some(Ok(x));
                },
            }
        }
    }
}

/// An item of a standard iterator of `Result`s, or its end, as an outcome.
pub open spec fn as_step<T, E>(item: Option<Result<T, E>>) -> Step<T, E> {
    match item {
        Some(Ok(x)) => Step::Yield(x),
        Some(Err(e)) => Step::Error(e),
        None => Step::Done,
    }
}

/// A standard iterator of `Result`s seen as a fallible iterator.
pub struct ResultIterator<I>(I);

impl<I> ResultIterator<I> {
    /// The wrapped standard iterator.
    pub closed spec fn source(&self) -> I {
        self.0
    }
}

impl<I, T, E> EIterator for ResultIterator<I> where I: Iterator<Item = Result<T, E>> {
    type Item = T;

    type Error = E;

    /// The wrapped iterator has to keep the laws of standard iterators and
    /// to come to an end.
    open spec fn wf(&self) -> bool {
        &&& self.source().obeys_prophetic_iter_laws()
        &&& self.source().decrease() is Some
    }

    open spec fn fuel(&self) -> nat {
        match self.source().decrease() {
            Some(n) => n,
            None => 0,
        }
    }

    /// A standard iterator never asks to be advanced again. What it gives
    /// is a matter of its future, of which `enext` speaks.
    open spec fn advances(&self, next: &Self, out: Step<T, E>) -> bool {
        !(out is Skip)
    }

    /// The next item of the wrapped iterator as an outcome: a success is an
    /// item, a failure is an error, and the end is `Done`.
    fn enext(&mut self) -> (out: Step<T, E>)
        ensures
            out == as_step(
                if old(self).source().remaining().len() > 0 {
                    Some(old(self).source().remaining().first())
                } else {
                    None
                },
            ),
            final(self).source().remaining() == if old(self).source().remaining().len() > 0 {
                old(self).source().remaining().drop_first()
            } else {
                old(self).source().remaining()
            },
    {
        assert(self.source() == self.0 && self.fuel() == self.0.decrease()->0);
        let ghost before = self.0;
        let got = self.0.next();
        assert(got is Some ==> decreases_to!(before.decrease()->0 => self.0.decrease()->0));
        assert(self.source() == self.0);
        match got {
            Some(Ok(x)) => Step::Yield(x),
            Some(Err(e)) => Step::Error(e),
            None => Step::Done,
        }
    }
}

} // verus!
