use crate::applications::vec::VecReducer;
use crate::{fresh, views, Reducing, StepResult, Transducer};
use std::collections::VecDeque;
use vstd::prelude::*;
use vstd::std_specs::iter::IteratorSpec;

verus! {

/// The sink of a pull-driven chain: it queues what it accepts until the iterator fetches it.
pub struct IterReducer<T: DeepView>(VecReducer<T>);

impl<T: DeepView> IterReducer<T> {
    pub fn new() -> (s: Self)
        ensures
            fresh(&s),
            !s.initialized(),
            s.emitted() =~= Seq::empty(),
            s.drained() == 0,
            s.collecting(),
            forall|i: Seq<T::V>, c: bool| #[trigger] s.denote(i, c) == i,
    {
        IterReducer(VecReducer::new())
    }
}

impl<T: DeepView> Reducing for IterReducer<T> {
    type Input = T;

    type Item = T;

    type Error = ();

    closed spec fn wf(&self) -> bool {
        self.0.wf()
    }

    closed spec fn seen(&self) -> Seq<T::V> {
        self.0.seen()
    }

    closed spec fn emitted(&self) -> Seq<T::V> {
        self.0.emitted()
    }

    closed spec fn drained(&self) -> nat {
        self.0.drained()
    }

    open spec fn halted(&self) -> bool {
        false
    }

    open spec fn failure(&self) -> Option<()> {
        None
    }

    closed spec fn completed(&self) -> bool {
        self.0.completed()
    }

    closed spec fn initialized(&self) -> bool {
        self.0.initialized()
    }

    open spec fn collecting(&self) -> bool {
        true
    }

    open spec fn denote(&self, input: Seq<T::V>, closing: bool) -> Seq<T::V> {
        input
    }

    open spec fn stops(&self, input: Seq<T::V>) -> bool {
        false
    }

    proof fn lemma_stops(&self) {
    }

    proof fn lemma_emitted(&self) {
        self.0.lemma_emitted();
    }

    proof fn lemma_halted(&self, more: Seq<T::V>, closing: bool) {
    }

    /// Takes note that a run starts.
    fn init(&mut self) {
        self.0.init();
    }

    /// Queues the value.
    fn step(&mut self, value: T) -> (r: Result<StepResult, ()>)
        ensures
            r == Ok::<StepResult, ()>(StepResult::Continue),
            final(self).emitted() == old(self).emitted().push(value.deep_view()),
    {
        self.0.step(value)
    }

    /// Changes nothing of what was queued.
    fn complete(&mut self) -> (r: Result<(), ()>)
        ensures
            final(self).emitted() == old(self).emitted(),
    {
        self.0.complete()
    }

    fn drain(&mut self) -> (out: Vec<T>) {
        self.0.drain()
    }
}

/// Moves every value of `source` to the back of `queue`, in order.
pub fn enqueue<S>(source: S, queue: &mut VecDeque<S::Item>) where S: Iterator
    requires
        source.obeys_prophetic_iter_laws(),
        source.decrease() is Some,
    ensures
        final(queue)@ == old(queue)@ + source.remaining(),
{
    let mut rest = source;
    loop
        invariant
            rest.obeys_prophetic_iter_laws(),
            rest.decrease() is Some,
            queue@ + rest.remaining() == old(queue)@ + source.remaining(),
        ensures
            rest.remaining().len() == 0,
        decreases rest.decrease()->0,
    {
        match rest.next() {
            None => {
                break ;
            },
            Some(value) => {
                assert(queue@.push(value) + rest.remaining() =~= queue@ + (seq![value]
                    + rest.remaining()));
                queue.push_back(value);
            },
        }
    }
    assert(queue@ + rest.remaining() =~= queue@);
}

/// Where a transducing iterator stands.
#[derive(Clone, Copy, Debug, PartialEq, Eq, Structural)]
pub enum IterState {
    /// The chain is open: the next request may pull from the underlying iterator.
    Pulling,
    /// The chain is completed and the queue still holds values.
    Draining,
    /// The chain is completed and the queue is empty: every request answers `None`.
    Exhausted,
}

/// What one advance of a transducing iterator gave.
#[derive(Debug, PartialEq, Eq)]
pub enum Advance<O> {
    /// The next value.
    Yielded(O),
    /// One value was pulled from the underlying iterator and the chain made nothing of
    /// it yet.
    Pending,
    /// The chain is completed and everything has been handed out.
    Finished,
}

/// A lazy iterator over what a chain makes of an underlying iterator.
pub struct TransduceIterator<I, O: DeepView, RF> {
    underlying: I,
    buffer: VecDeque<O>,
    rf: RF,
    runoff: bool,
    yielded: Ghost<Seq<O::V>>,
}

impl<I, O, RF> TransduceIterator<I, O, RF> where
    I: Iterator,
    I::Item: DeepView,
    O: DeepView,
    RF: Reducing<Input = I::Item, Item = O>,
 {
    /// The invariant every operation keeps.
    pub closed spec fn wf(&self) -> bool {
        &&& self.rf.wf()
        &&& self.rf.collecting()
        &&& self.rf.failure() is None
        &&& self.rf.drained() == self.rf.emitted().len()
        &&& self.yielded@ + views(self.buffer@) =~= self.rf.emitted()
        &&& self.runoff == self.rf.completed()
        &&& !self.runoff ==> !self.rf.halted()
    }

    /// The underlying iterator, as far as it has been pulled.
    pub closed spec fn source(&self) -> I {
        self.underlying
    }

    /// The underlying iterator ends after finitely many values, and says how many are
    /// left at most.
    pub open spec fn finite(&self) -> bool {
        self.source().obeys_prophetic_iter_laws() && self.source().decrease() is Some
    }

    /// The values handed out so far, in order.
    pub closed spec fn yielded(&self) -> Seq<O::V> {
        self.yielded@
    }

    /// The values waiting to be handed out, in order.
    pub closed spec fn queued(&self) -> Seq<O::V> {
        views(self.buffer@)
    }

    /// The values pulled from the underlying iterator so far, in order.
    pub closed spec fn consumed(&self) -> Seq<<I::Item as DeepView>::V> {
        self.rf.seen()
    }

    /// The chain has been completed: no more is pulled from the underlying iterator.
    pub closed spec fn exhausted(&self) -> bool {
        self.runoff
    }

    /// The chain has answered `Stop`.
    pub closed spec fn halted(&self) -> bool {
        self.rf.halted()
    }

    /// What the chain makes of `input`, completed if `closing`.
    pub closed spec fn denote(
        &self,
        input: Seq<<I::Item as DeepView>::V>,
        closing: bool,
    ) -> Seq<O::V> {
        self.rf.denote(input, closing)
    }

    /// A bound on the pulls left, for an underlying iterator that is finite. With every
    /// value handed out, either it shrinks or it stays and the queue shrinks.
    pub closed spec fn fuel(&self) -> nat {
        if self.runoff {
            0
        } else {
            1 + self.underlying.decrease()->0
        }
    }

    /// Tells where the iterator stands.
    pub fn state(&self) -> (s: IterState)
        ensures
            s == IterState::Pulling <==> !self.exhausted(),
            s == IterState::Draining <==> self.exhausted() && self.queued().len() > 0,
            s == IterState::Exhausted <==> self.exhausted() && self.queued().len() == 0,
    {
        if !self.runoff {
            IterState::Pulling
        } else if self.buffer.len() > 0 {
            IterState::Draining
        } else {
            IterState::Exhausted
        }
    }

    /// What has been handed out and what is queued is what the chain makes of the values
    /// pulled so far.
    pub proof fn lemma_yielded(&self)
        requires
            self.wf(),
        ensures
            self.yielded() + self.queued() == self.denote(self.consumed(), self.exhausted()),
    {
        self.rf.lemma_emitted();
    }

    /// Once the chain has stopped, whatever the underlying iterator still holds cannot
    /// change the outcome; nor can an underlying iterator that holds nothing more.
    pub proof fn lemma_grown(&self, more: Seq<<I::Item as DeepView>::V>)
        requires
            self.wf(),
        ensures
            self.halted() || more.len() == 0 ==> self.denote(self.consumed() + more, true)
                == self.denote(self.consumed(), true),
    {
        self.rf.lemma_halted(more, true);
        if more.len() == 0 {
            assert(self.rf.seen() + more =~= self.rf.seen());
        }
    }

    /// Makes one move. If a value is queued, hands it out. Otherwise, if the chain is
    /// completed, says so. Otherwise pulls one value from the underlying iterator, runs it
    /// through the chain, completes the chain if the underlying iterator is at its end or
    /// the chain has stopped, and hands out the first value this produced, if any.
    pub fn advance(&mut self) -> (r: Advance<O>)
        requires
            old(self).wf(),
        ensures
            final(self).wf(),
            forall|s: Seq<<I::Item as DeepView>::V>, c: bool| #[trigger]
                final(self).denote(s, c) == old(self).denote(s, c),
            old(self).finite() ==> final(self).finite(),
            match r {
                Advance::Yielded(x) => final(self).yielded() == old(self).yielded().push(
                    x.deep_view(),
                ),
                Advance::Pending => {
                    &&& final(self).yielded() == old(self).yielded()
                    &&& final(self).queued().len() == 0
                    &&& !final(self).exhausted()
                },
                Advance::Finished => {
                    &&& final(self).yielded() == old(self).yielded()
                    &&& final(self).queued().len() == 0
                    &&& final(self).exhausted()
                },
            },
            // a queued value is handed out without touching chain or source
            old(self).queued().len() > 0 ==> r is Yielded
                && final(self).queued() == old(self).queued().drop_first()
                && final(self).consumed() == old(self).consumed()
                && final(self).source() == old(self).source()
                && final(self).exhausted() == old(self).exhausted(),
            // a completed chain stays as it is
            old(self).exhausted() ==> final(self).exhausted()
                && final(self).source() == old(self).source()
                && final(self).consumed() == old(self).consumed(),
            old(self).exhausted() && old(self).queued().len() == 0 ==> r is Finished,
            old(self).halted() ==> final(self).halted(),
            final(self).halted() ==> final(self).exhausted(),
            // at most one value is pulled, and only by an open chain with nothing queued
            ({
                let before = old(self).consumed();
                let after = final(self).consumed();
                &&& before.len() <= after.len() <= before.len() + 1
                &&& after.take(before.len() as int) == before
                &&& r is Pending ==> after.len() == before.len() + 1
                &&& old(self).queued().len() == 0 && !old(self).exhausted() ==> {
                    &&& old(self).yielded() == old(self).denote(before, false)
                    &&& after.len() == before.len() ==> final(self).exhausted()
                }
            }),
            // what is pulled is what the underlying iterator gives next
            old(self).source().obeys_prophetic_iter_laws() ==> {
                &&& final(self).consumed() + views(final(self).source().remaining())
                    == old(self).consumed() + views(old(self).source().remaining())
                &&& !old(self).exhausted() && final(self).exhausted() ==> final(self).halted()
                    || final(self).source().remaining().len() == 0
            },
            // with a finite underlying iterator every move but the last makes progress
            old(self).finite() && !(r is Finished) ==> final(self).fuel() < old(self).fuel() || (
            final(self).fuel() == old(self).fuel()
                && final(self).queued().len() < old(self).queued().len()),
    {
        assert(self.consumed().take(self.consumed().len() as int) =~= self.consumed());
        if self.buffer.len() == 0 {
            assert(views(self.buffer@) =~= Seq::<O::V>::empty());
            assert(self.yielded@ + views(self.buffer@) =~= self.yielded@);
            if self.runoff {
                return Advance::Finished;
            }
            proof {
                self.rf.lemma_emitted();
            }
            let ghost pulled = self.rf.seen();
            match self.underlying.next() {
                None => {
                    self.runoff = true;
                    let _ = self.rf.complete();
                },
                Some(value) => {
                    proof {
                        assert(old(self).underlying.obeys_prophetic_iter_laws()
                            ==> pulled.push(value.deep_view()) + views(
                            self.underlying.remaining(),
                        ) =~= pulled + views(old(self).underlying.remaining()));
                        assert(pulled.push(value.deep_view()).take(pulled.len() as int)
                            =~= pulled);
                    }
                    match self.rf.step(value) {
                        Ok(StepResult::Continue) => {},
                        _ => {
                            self.runoff = true;
                            let _ = self.rf.complete();
                        },
                    }
                },
            }
            let fresh = self.rf.drain();
            assert(views(fresh@) =~= fresh.deep_view());
            enqueue(fresh.into_iter(), &mut self.buffer);
            assert(self.buffer@ =~= fresh@);
            assert(self.yielded@ + views(self.buffer@) =~= self.rf.emitted());
        }
        let ghost ready = self.buffer@;
        match self.buffer.pop_front() {
            Some(value) => {
                proof {
                    assert(views(ready) =~= seq![value.deep_view()] + views(self.buffer@));
                    assert(views(self.buffer@) =~= views(ready).drop_first());
                    assert(self.yielded@.push(value.deep_view()) + views(self.buffer@)
                        =~= self.yielded@ + views(ready));
                    self.yielded@ = self.yielded@.push(value.deep_view());
                }
                Advance::Yielded(value)
            },
            None => {
                assert(views(self.buffer@) =~= Seq::<O::V>::empty());
                if self.runoff {
                    Advance::Finished
                } else {
                    Advance::Pending
                }
            },
        }
    }

    /// Hands out the next value, pulling from the underlying iterator as far as needed.
    /// `None` means that the chain is completed and everything has been handed out.
    pub fn next(&mut self) -> (r: Option<O>)
        requires
            old(self).wf(),
            old(self).finite(),
        ensures
            final(self).wf(),
            final(self).finite(),
            forall|s: Seq<<I::Item as DeepView>::V>, c: bool| #[trigger]
                final(self).denote(s, c) == old(self).denote(s, c),
            r matches Some(x) ==> final(self).yielded() == old(self).yielded().push(x.deep_view()),
            r is None ==> final(self).yielded() == old(self).yielded() && final(self).exhausted()
                && final(self).queued().len() == 0,
            r is Some ==> final(self).fuel() < old(self).fuel() || (final(self).fuel()
                == old(self).fuel() && final(self).queued().len() < old(self).queued().len()),
            final(self).consumed() + views(final(self).source().remaining())
                == old(self).consumed() + views(old(self).source().remaining()),
            old(self).exhausted() ==> final(self).exhausted()
                && final(self).source() == old(self).source()
                && final(self).consumed() == old(self).consumed(),
            !old(self).exhausted() && final(self).exhausted() ==> final(self).halted()
                || final(self).source().remaining().len() == 0,
            final(self).halted() ==> final(self).exhausted(),
            old(self).halted() ==> final(self).halted(),
            old(self).queued().len() > 0 ==> final(self).consumed() == old(self).consumed()
                && final(self).queued() == old(self).queued().drop_first()
                && final(self).exhausted() == old(self).exhausted(),
            final(self).consumed().len() > old(self).consumed().len() ==> old(self).yielded()
                == final(self).denote(final(self).consumed().drop_last(), false),
    {
        loop
            invariant
                self.wf(),
                self.finite(),
                forall|s: Seq<<I::Item as DeepView>::V>, c: bool| #[trigger]
                    self.denote(s, c) == old(self).denote(s, c),
                old(self).halted() ==> self.halted(),
                self.yielded() == old(self).yielded(),
                self.consumed() + views(self.source().remaining()) == old(self).consumed()
                    + views(old(self).source().remaining()),
                old(self).exhausted() ==> self.exhausted() && self.source() == old(self).source()
                    && self.consumed() == old(self).consumed(),
                !old(self).exhausted() && self.exhausted() ==> self.halted()
                    || self.source().remaining().len() == 0,
                self.fuel() <= old(self).fuel(),
                self.fuel() == old(self).fuel() ==> self.queued() == old(self).queued()
                    && self.consumed() == old(self).consumed()
                    && self.exhausted() == old(self).exhausted(),
                old(self).queued().len() > 0 ==> self.fuel() == old(self).fuel(),
                old(self).consumed().len() <= self.consumed().len(),
                self.consumed().len() > old(self).consumed().len() ==> self.queued().len() == 0
                    && old(self).yielded() == self.denote(self.consumed().drop_last(), false),
            decreases self.fuel(),
        {
            let ghost before = self.consumed();
            let r = self.advance();
            proof {
                if self.consumed().len() > before.len() {
                    assert(self.consumed().drop_last() =~= self.consumed().take(
                        before.len() as int,
                    ));
                } else {
                    assert(self.consumed() =~= self.consumed().take(before.len() as int));
                }
            }
            match r {
                Advance::Yielded(value) => {
                    return Some(value);
                },
                Advance::Finished => {
                    return None;
                },
                Advance::Pending => {},
            }
        }
    }

    /// Runs the iterator to its end and returns everything it still hands out: together
    /// with what was handed out before, that is what the chain makes of all the values of
    /// the underlying iterator.
    pub fn collect(self) -> (out: Vec<O>)
        requires
            self.wf(),
            self.finite(),
        ensures
            (self.exhausted() ==> self.halted() || self.source().remaining().len() == 0)
                ==> self.yielded() + out.deep_view() == self.denote(
                self.consumed() + views(self.source().remaining()),
                true,
            ),
    {
        let mut it = self;
        let mut out: Vec<O> = Vec::new();
        loop
            invariant
                it.wf(),
                it.finite(),
                forall|s: Seq<<I::Item as DeepView>::V>, c: bool| #[trigger]
                    it.denote(s, c) == self.denote(s, c),
                it.yielded() == self.yielded() + views(out@),
                it.consumed() + views(it.source().remaining()) == self.consumed() + views(
                    self.source().remaining(),
                ),
                (self.exhausted() ==> self.halted() || self.source().remaining().len() == 0)
                    ==> (it.exhausted() ==> it.halted() || it.source().remaining().len() == 0),
            ensures
                (self.exhausted() ==> self.halted() || self.source().remaining().len() == 0)
                    ==> it.yielded() == it.denote(
                    it.consumed() + views(it.source().remaining()),
                    true,
                ),
            decreases it.fuel(), it.queued().len(),
        {
            match it.next() {
                None => {
                    assert(it.halted() || it.source().remaining().len() == 0
                        ==> it.yielded() == it.denote(
                        it.consumed() + views(it.source().remaining()),
                        true,
                    )) by {
                        it.lemma_yielded();
                        it.lemma_grown(views(it.source().remaining()));
                        assert(it.yielded() + it.queued() =~= it.yielded());
                    }
                    break ;
                },
                Some(value) => {
                    assert((self.yielded() + views(out@)).push(value.deep_view()) =~= self.yielded()
                        + views(out@.push(value)));
                    out.push(value);
                },
            }
        }
        assert(views(out@) =~= out.deep_view());
        out
    }
}

/// Iterators that can be run through a transducer lazily.
pub trait TransduceIter: Iterator + Sized where Self::Item: DeepView {
    /// Binds `transducer` to a queueing sink and wraps this iterator with the chain.
    fn transduce<T, O: DeepView, RO>(self, transducer: T) -> (it: TransduceIterator<
        Self,
        O,
        RO,
    >) where
        T: Transducer<IterReducer<O>, RO = RO>,
        RO: Reducing<Input = Self::Item, Item = O, Error = ()>,

        requires
            transducer.wf(),
        ensures
            it.wf(),
            it.source() == self,
            it.yielded() == Seq::<O::V>::empty(),
            it.queued() == Seq::<O::V>::empty(),
            it.consumed() == Seq::<<Self::Item as DeepView>::V>::empty(),
            !it.exhausted(),
            forall|s: Seq<<Self::Item as DeepView>::V>, c: bool| #[trigger]
                it.denote(s, c) == transducer.apply(s, c),
    ;
}

impl<I: Iterator> TransduceIter for I where I::Item: DeepView {
    fn transduce<T, O: DeepView, RO>(self, transducer: T) -> (it: TransduceIterator<I, O, RO>) where
        T: Transducer<IterReducer<O>, RO = RO>,
        RO: Reducing<Input = I::Item, Item = O, Error = ()>,
     {
        let mut rf = transducer.new(IterReducer::new());
        rf.init();
        let buffer: VecDeque<O> = VecDeque::new();
        assert(views(buffer@) =~= Seq::<O::V>::empty());
        TransduceIterator {
            underlying: self,
            buffer: buffer,
            rf: rf,
            runoff: false,
            yielded: Ghost(Seq::empty()),
        }
    }
}

} // verus!
