use crate::{feed, fresh, views, Reducing, StepResult, Transducer};
use vstd::prelude::*;
use vstd::std_specs::iter::IteratorSpec;

verus! {

/// The sink that collects into a growable sequence.
pub struct VecReducer<O: DeepView> {
    items: Vec<O>,
    emitted: Ghost<Seq<O::V>>,
    started: Ghost<bool>,
    done: Ghost<bool>,
}

impl<O: DeepView> VecReducer<O> {
    /// An empty sink that no chain has fed yet.
    pub fn new() -> (s: Self)
        ensures
            fresh(&s),
            !s.initialized(),
            s.emitted() =~= Seq::empty(),
            s.drained() == 0,
            s.collecting(),
            forall|i: Seq<O::V>, c: bool| #[trigger] s.denote(i, c) == i,
    {
        VecReducer {
            items: Vec::new(),
            emitted: Ghost(Seq::empty()),
            started: Ghost(false),
            done: Ghost(false),
        }
    }
}

impl<O: DeepView> Reducing for VecReducer<O> {
    type Input = O;

    type Item = O;

    type Error = ();

    closed spec fn wf(&self) -> bool {
        &&& self.items@.len() <= self.emitted@.len()
        &&& views(self.items@) =~= self.emitted@.skip(self.emitted@.len() - self.items@.len())
    }

    closed spec fn seen(&self) -> Seq<O::V> {
        self.emitted@
    }

    closed spec fn emitted(&self) -> Seq<O::V> {
        self.emitted@
    }

    closed spec fn drained(&self) -> nat {
        (self.emitted@.len() - self.items@.len()) as nat
    }

    open spec fn halted(&self) -> bool {
        false
    }

    open spec fn failure(&self) -> Option<()> {
        None
    }

    closed spec fn completed(&self) -> bool {
        self.done@
    }

    closed spec fn initialized(&self) -> bool {
        self.started@
    }

    open spec fn collecting(&self) -> bool {
        true
    }

    open spec fn denote(&self, input: Seq<O::V>, closing: bool) -> Seq<O::V> {
        input
    }

    open spec fn stops(&self, input: Seq<O::V>) -> bool {
        false
    }

    proof fn lemma_stops(&self) {
    }

    proof fn lemma_emitted(&self) {
    }

    proof fn lemma_halted(&self, more: Seq<O::V>, closing: bool) {
    }

    /// Takes note that a run starts.
    fn init(&mut self) {
        proof {
            self.started@ = true;
        }
    }

    /// Appends the value.
    fn step(&mut self, value: O) -> (r: Result<StepResult, ()>)
        ensures
            r == Ok::<StepResult, ()>(StepResult::Continue),
            final(self).emitted() == old(self).emitted().push(value.deep_view()),
    {
        self.items.push(value);
        proof {
            self.emitted@ = self.emitted@.push(value.deep_view());
            assert(views(self.items@) =~= views(old(self).items@).push(value.deep_view()));
            let before = old(self).emitted@;
            assert(self.emitted@.subrange(0, before.len() as int) =~= before);
        }
        assert(views(self.items@) =~= self.emitted@.skip(self.emitted@.len() - self.items@.len()));
        Ok(StepResult::Continue)
    }

    /// Changes nothing of what was collected.
    fn complete(&mut self) -> (r: Result<(), ()>)
        ensures
            final(self).emitted() == old(self).emitted(),
    {
        proof {
            self.done@ = true;
        }
        Ok(())
    }

    fn drain(&mut self) -> (out: Vec<O>) {
        let mut out = Vec::new();
        std::mem::swap(&mut out, &mut self.items);
        assert(views(self.items@) =~= self.emitted@.skip(self.emitted@.len() - self.items@.len()));
        assert(out.deep_view() =~= views(out@));
        out
    }
}

/// Binds `transducer` to a collecting sink, feeds the chain from `source` until the source
/// runs dry or the chain stops, completes it, and returns what the sink collected.
pub fn drive<S, T, O>(source: S, transducer: T) -> (r: Result<Vec<O>, ()>) where
    S: Iterator,
    S::Item: DeepView,
    O: DeepView,
    T: Transducer<VecReducer<O>>,
    T::RO: Reducing<Input = S::Item>,

    requires
        transducer.wf(),
        source.obeys_prophetic_iter_laws(),
        source.decrease() is Some,
    ensures
        r matches Ok(v) && v.deep_view() == transducer.apply(views(source.remaining()), true),
{
    let mut reducing = transducer.new(VecReducer::new());
    reducing.init();
    let first = feed(source, &mut reducing);
    proof {
        let all = views(source.remaining());
        assert(Seq::<<S::Item as DeepView>::V>::empty() + all =~= all);
        reducing.lemma_halted(all.skip(reducing.seen().len() as int), true);
        assert(reducing.halted() ==> reducing.seen() + all.skip(reducing.seen().len() as int)
            =~= all);
    }
    let last = reducing.complete();
    proof {
        reducing.lemma_emitted();
    }
    let out = reducing.drain();
    match first {
        Ok(_) => match last {
            Ok(()) => Ok(out),
            Err(e) => Err(e),
        },
        Err(e) => Err(e),
    }
}

/// Sources that own their values and can be run through a transducer into a vector.
pub trait Into: Sized {
    type Input: DeepView;

    /// The values this source yields, in order.
    spec fn items(&self) -> Seq<<Self::Input as DeepView>::V>;

    /// Runs the values through `transducer` and collects what comes out.
    fn transduce_into<T, O: DeepView>(self, transducer: T) -> (r: Result<Vec<O>, ()>) where
        T: Transducer<VecReducer<O>>,
        T::RO: Reducing<Input = Self::Input>,

        requires
            transducer.wf(),
        ensures
            r matches Ok(v) && v.deep_view() == transducer.apply(self.items(), true),
    ;
}

impl<X: DeepView> Into for Vec<X> {
    type Input = X;

    open spec fn items(&self) -> Seq<X::V> {
        self.deep_view()
    }

    fn transduce_into<T, O: DeepView>(self, transducer: T) -> (r: Result<Vec<O>, ()>) where
        T: Transducer<VecReducer<O>>,
        T::RO: Reducing<Input = X>,
     {
        assert(views(self@) =~= self.deep_view());
        drive(self.into_iter(), transducer)
    }
}

/// Sources that lend their values and can be run through a transducer into a vector. The
/// chain sees references; the vector returned is the caller's own.
pub trait Ref {
    type Input: DeepView;

    /// The values this source lends, in order.
    spec fn items(&self) -> Seq<<Self::Input as DeepView>::V>;

    /// Runs references to the values through `transducer` and collects what comes out.
    fn transduce_ref<'a, T, O: DeepView>(&'a self, transducer: T) -> (r: Result<Vec<O>, ()>) where
        T: Transducer<VecReducer<O>>,
        T::RO: Reducing<Input = &'a Self::Input>,

        requires
            transducer.wf(),
        ensures
            r matches Ok(v) && v.deep_view() == transducer.apply(self.items(), true),
    ;
}

impl<X: DeepView> Ref for Vec<X> {
    type Input = X;

    open spec fn items(&self) -> Seq<X::V> {
        self.deep_view()
    }

    fn transduce_ref<'a, T, O: DeepView>(&'a self, transducer: T) -> (r: Result<Vec<O>, ()>) where
        T: Transducer<VecReducer<O>>,
        T::RO: Reducing<Input = &'a X>,
     {
        assert(views(self@.as_ref()) =~= self.deep_view());
        drive(self.into_iter(), transducer)
    }
}

} // verus!
