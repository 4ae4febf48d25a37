//! Composable, source-independent transformations over streams of values.
//!
//! A transducer describes a transformation (map, filter, chunk, take, drop, substitute)
//! without saying where the input comes from or where the output goes. Binding it to a
//! downstream gives a chain: a stateful object that takes one value per `step`, may answer
//! `Stop` to end the run early, and is completed exactly once. A driver binds a transducer
//! to a sink and feeds the chain: from a vector, lazily from an iterator, or value by value
//! into a channel.
//!
//! Every contract is stated over views. A transducer denotes a function on sequences
//! (`Transducer::apply`); a chain keeps its sink equal to what it denotes on the values seen
//! (`Reducing::lemma_emitted`), and a chain that has answered `Stop` denotes the same on
//! every longer input (`Reducing::lemma_halted`). From these two facts each driver proves
//! that it hands back exactly what its transducer denotes on the whole input, however
//! early the run ended.
pub mod applications;
pub mod laws;
pub mod model;
pub mod transducers;

use vstd::prelude::*;
use vstd::std_specs::iter::IteratorSpec;
/// The view that the values of every chain must have; contracts speak of values by it.
pub use vstd::view::DeepView;

verus! {

/// What a reducing function tells its caller after one `step`.
#[derive(Clone, Copy, Debug, PartialEq, Eq, Structural)]
pub enum StepResult {
    /// More input is welcome.
    Continue,
    /// The chain is satisfied; no further input may be offered.
    Stop,
}

/// A bound chain of stages that ends in a sink.
///
/// The caller offers values one at a time through `step` and must stop as soon as a
/// step answers `Stop` or fails; `complete` is owed exactly once, whether the input ran
/// dry, the chain stopped or the sink failed. All contracts speak of values by their views.
pub trait Reducing: Sized {
    /// The values this chain is fed.
    type Input: DeepView;

    /// The values that reach the sink at the end of the chain.
    type Item: DeepView;

    /// The failure the sink can report.
    type Error;

    /// The invariant every operation keeps.
    spec fn wf(&self) -> bool;

    /// Every value offered through `step` so far, in order.
    spec fn seen(&self) -> Seq<<Self::Input as DeepView>::V>;

    /// Every value the sink has accepted so far, in order.
    spec fn emitted(&self) -> Seq<<Self::Item as DeepView>::V>;

    /// How many of the accepted values have left the sink through `drain`.
    spec fn drained(&self) -> nat;

    /// A `step` has answered `Stop`.
    spec fn halted(&self) -> bool;

    /// The failure the sink reported first, if it has rejected a value.
    spec fn failure(&self) -> Option<Self::Error>;

    /// `complete` has run.
    spec fn completed(&self) -> bool;

    /// The start of a run has been announced through `init`, down to the sink.
    spec fn initialized(&self) -> bool;

    /// The sink collects in memory: it never fails and keeps what it accepts until drained.
    spec fn collecting(&self) -> bool;

    /// What the sink accepts when the chain is fed `input`, and then completed if `closing`.
    /// Depends on the chain's configuration only, never on its progress.
    spec fn denote(
        &self,
        input: Seq<<Self::Input as DeepView>::V>,
        closing: bool,
    ) -> Seq<<Self::Item as DeepView>::V>;

    /// Whether the chain has answered `Stop` by the time it has been fed `input` without a
    /// failure. Depends on the chain's configuration only, never on its progress.
    spec fn stops(&self, input: Seq<<Self::Input as DeepView>::V>) -> bool;

    /// As long as the sink has refused nothing, the chain has answered `Stop` exactly if it
    /// stops on the input seen.
    proof fn lemma_stops(&self)
        requires
            self.wf(),
            self.failure() is None,
        ensures
            self.halted() == self.stops(self.seen()),
    ;

    /// The sink holds exactly what the chain denotes on the input seen.
    proof fn lemma_emitted(&self)
        requires
            self.wf(),
            self.failure() is None,
        ensures
            self.emitted() == self.denote(self.seen(), self.completed()),
    ;

    /// Once halted, no further input could change what the chain denotes.
    proof fn lemma_halted(&self, more: Seq<<Self::Input as DeepView>::V>, closing: bool)
        requires
            self.wf(),
        ensures
            self.halted() ==> self.denote(self.seen() + more, closing) == self.denote(
                self.seen(),
                closing,
            ),
    ;

    /// Announces the start of a run. Every stage passes the call on downstream, so that it
    /// reaches the sink. It is made at most once, before the first `step`, and changes
    /// nothing else.
    fn init(&mut self)
        requires
            old(self).wf(),
            !old(self).initialized(),
            old(self).seen().len() == 0,
        ensures
            final(self).wf(),
            final(self).initialized(),
            final(self).seen() == old(self).seen(),
            final(self).emitted() == old(self).emitted(),
            final(self).drained() == old(self).drained(),
            final(self).halted() == old(self).halted(),
            final(self).failure() == old(self).failure(),
            final(self).completed() == old(self).completed(),
            final(self).collecting() == old(self).collecting(),
            forall|s: Seq<<Self::Input as DeepView>::V>, c: bool| #[trigger]
                final(self).denote(s, c) == old(self).denote(s, c),
            forall|s: Seq<<Self::Input as DeepView>::V>|
                #![trigger final(self).stops(s)]
                #![trigger old(self).stops(s)]
                final(self).stops(s) == old(self).stops(s),
    ;

    /// Takes one value. The stage may hand none, one or many values downstream.
    /// `Stop`: the chain is satisfied. `Err`: the sink refused a value.
    fn step(&mut self, value: Self::Input) -> (r: Result<StepResult, Self::Error>)
        requires
            old(self).wf(),
            !old(self).halted(),
            old(self).failure() is None,
            !old(self).completed(),
        ensures
            final(self).wf(),
            final(self).seen() == old(self).seen().push(value.deep_view()),
            old(self).emitted().is_prefix_of(final(self).emitted()),
            final(self).drained() == old(self).drained(),
            final(self).initialized() == old(self).initialized(),
            !final(self).completed(),
            final(self).halted() <==> r == Ok::<StepResult, Self::Error>(StepResult::Stop),
            r is Ok && !final(self).halted() ==> r == Ok::<StepResult, Self::Error>(
                StepResult::Continue,
            ),
            r is Ok ==> final(self).failure() is None,
            r matches Err(e) ==> final(self).failure() == Some(e),
            old(self).collecting() ==> r is Ok,
            final(self).collecting() == old(self).collecting(),
            forall|s: Seq<<Self::Input as DeepView>::V>, c: bool| #[trigger]
                final(self).denote(s, c) == old(self).denote(s, c),
            forall|s: Seq<<Self::Input as DeepView>::V>|
                #![trigger final(self).stops(s)]
                #![trigger old(self).stops(s)]
                final(self).stops(s) == old(self).stops(s),
    ;

    /// Ends the run: every stage hands on what it still holds and passes the call
    /// downstream.
    fn complete(&mut self) -> (r: Result<(), Self::Error>)
        requires
            old(self).wf(),
            !old(self).completed(),
        ensures
            final(self).wf(),
            final(self).completed(),
            final(self).seen() == old(self).seen(),
            old(self).emitted().is_prefix_of(final(self).emitted()),
            final(self).drained() == old(self).drained(),
            final(self).initialized() == old(self).initialized(),
            final(self).halted() == old(self).halted(),
            old(self).failure() is Some ==> final(self).failure() == old(self).failure(),
            r is Ok ==> final(self).failure() == old(self).failure(),
            r matches Err(e) ==> final(self).failure() is Some && (old(self).failure() is None
                ==> final(self).failure() == Some(e)),
            old(self).collecting() ==> r is Ok,
            final(self).collecting() == old(self).collecting(),
            forall|s: Seq<<Self::Input as DeepView>::V>, c: bool| #[trigger]
                final(self).denote(s, c) == old(self).denote(s, c),
            forall|s: Seq<<Self::Input as DeepView>::V>|
                #![trigger final(self).stops(s)]
                #![trigger old(self).stops(s)]
                final(self).stops(s) == old(self).stops(s),
    ;

    /// Takes out of a collecting sink what it has accepted since the last call. Any other
    /// sink holds nothing back, so there is nothing to take.
    fn drain(&mut self) -> (out: Vec<Self::Item>)
        requires
            old(self).wf(),
        ensures
            final(self).wf(),
            final(self).seen() == old(self).seen(),
            final(self).emitted() == old(self).emitted(),
            final(self).halted() == old(self).halted(),
            final(self).failure() == old(self).failure(),
            final(self).completed() == old(self).completed(),
            final(self).initialized() == old(self).initialized(),
            final(self).collecting() == old(self).collecting(),
            forall|s: Seq<<Self::Input as DeepView>::V>, c: bool| #[trigger]
                final(self).denote(s, c) == old(self).denote(s, c),
            forall|s: Seq<<Self::Input as DeepView>::V>|
                #![trigger final(self).stops(s)]
                #![trigger old(self).stops(s)]
                final(self).stops(s) == old(self).stops(s),
            old(self).collecting() ==> out.deep_view() == old(self).emitted().skip(
                old(self).drained() as int,
            ) && final(self).drained() == old(self).emitted().len(),
            !old(self).collecting() ==> out@.len() == 0
                && final(self).drained() == old(self).drained(),
    ;
}

/// A transformation that has not been bound to a downstream yet. Binding consumes it.
pub trait Transducer<RI: Reducing>: Sized {
    /// The chain that binding to a downstream `RI` gives.
    type RO: Reducing<Item = RI::Item, Error = RI::Error>;

    /// The configuration can be bound: closures accept every value and compute their
    /// models.
    spec fn wf(&self) -> bool;

    /// What this transformation hands downstream when fed `input`, and then completed
    /// if `closing`.
    spec fn apply(
        &self,
        input: Seq<<<Self::RO as Reducing>::Input as DeepView>::V>,
        closing: bool,
    ) -> Seq<<RI::Input as DeepView>::V>;

    /// Whether a chain bound from this transformation has answered `Stop` by the time it
    /// has been fed `input`, where `downstream` says on which inputs of its own the
    /// downstream stops.
    spec fn stops(
        &self,
        input: Seq<<<Self::RO as Reducing>::Input as DeepView>::V>,
        downstream: spec_fn(Seq<<RI::Input as DeepView>::V>) -> bool,
    ) -> bool;

    /// Binds this transformation to `reducing_fn`: the new chain denotes what
    /// `reducing_fn` denotes on what this transformation hands on, and stops where this
    /// transformation or `reducing_fn` stops.
    fn new(self, reducing_fn: RI) -> (ro: Self::RO)
        requires
            self.wf(),
            fresh(&reducing_fn),
        ensures
            fresh(&ro),
            ro.emitted() == reducing_fn.emitted(),
            ro.drained() == reducing_fn.drained(),
            ro.initialized() == reducing_fn.initialized(),
            ro.collecting() == reducing_fn.collecting(),
            forall|s: Seq<<<Self::RO as Reducing>::Input as DeepView>::V>, c: bool| #[trigger]
                ro.denote(s, c) == reducing_fn.denote(self.apply(s, c), c),
            forall|
                s: Seq<<<Self::RO as Reducing>::Input as DeepView>::V>,
                d: spec_fn(Seq<<RI::Input as DeepView>::V>) -> bool,
            |
                agree(d, reducing_fn) ==> #[trigger] self.stops(s, d) == ro.stops(s),
    ;
}

/// `d` says on which inputs the chain `r` stops.
pub open spec fn agree<R: Reducing>(
    d: spec_fn(Seq<<R::Input as DeepView>::V>) -> bool,
    r: R,
) -> bool {
    forall|m: Seq<<R::Input as DeepView>::V>|
        #![trigger d(m)]
        #![trigger r.stops(m)]
        d(m) == r.stops(m)
}

/// A chain that is well formed and has not been fed anything.
pub open spec fn fresh<R: Reducing>(r: &R) -> bool {
    &&& r.wf()
    &&& r.seen() =~= Seq::empty()
    &&& !r.halted()
    &&& r.failure() is None
    &&& !r.completed()
}

/// Two transducers chained into one: input runs through `b`, and what `b` hands on
/// runs through `a`.
pub struct ComposedTransducer<AT, BT> {
    pub a: AT,
    pub b: BT,
}

impl<RI, AT, BT> Transducer<RI> for ComposedTransducer<AT, BT> where
    RI: Reducing,
    AT: Transducer<RI>,
    BT: Transducer<AT::RO>,
 {
    type RO = BT::RO;

    open spec fn wf(&self) -> bool {
        self.a.wf() && self.b.wf()
    }

    open spec fn apply(
        &self,
        input: Seq<<<BT::RO as Reducing>::Input as DeepView>::V>,
        closing: bool,
    ) -> Seq<<RI::Input as DeepView>::V> {
        self.a.apply(self.b.apply(input, closing), closing)
    }

    open spec fn stops(
        &self,
        input: Seq<<<BT::RO as Reducing>::Input as DeepView>::V>,
        downstream: spec_fn(Seq<<RI::Input as DeepView>::V>) -> bool,
    ) -> bool {
        self.b.stops(
            input,
            |m: Seq<<<AT::RO as Reducing>::Input as DeepView>::V>| self.a.stops(m, downstream),
        )
    }

    fn new(self, reducing_fn: RI) -> (ro: Self::RO) {
        let inner = self.a.new(reducing_fn);
        let ro = self.b.new(inner);
        proof {
            assert forall|
                s: Seq<<<BT::RO as Reducing>::Input as DeepView>::V>,
                d: spec_fn(Seq<<RI::Input as DeepView>::V>) -> bool,
            | agree(d, reducing_fn) implies #[trigger] self.stops(s, d) == ro.stops(s) by {
                let mid = |m: Seq<<<AT::RO as Reducing>::Input as DeepView>::V>| self.a.stops(m, d);
                assert(agree(mid, inner));
            }
        }
        ro
    }
}

/// Chains two transducers: the result applies `b` to the raw input and `a` to what `b`
/// hands on.
pub fn compose<AT, BT>(a: AT, b: BT) -> (t: ComposedTransducer<AT, BT>)
    ensures
        t.a == a,
        t.b == b,
{
    ComposedTransducer { a: a, b: b }
}

/// The values of `s`, each taken by its view.
pub open spec fn views<T: DeepView>(s: Seq<T>) -> Seq<T::V> {
    s.map_values(|x: T| x.deep_view())
}

/// Feeds `reducing` from `source` until the source runs dry, the chain answers `Stop`,
/// or the sink fails. Returns the chain's last signal, or the sink's failure.
pub fn feed<S, R>(source: S, reducing: &mut R) -> (r: Result<StepResult, R::Error>) where
    S: Iterator,
    S::Item: DeepView,
    R: Reducing<Input = S::Item>,

    requires
        source.obeys_prophetic_iter_laws(),
        source.decrease() is Some,
        old(reducing).wf(),
        !old(reducing).halted(),
        old(reducing).failure() is None,
        !old(reducing).completed(),
    ensures
        final(reducing).wf(),
        !final(reducing).completed(),
        old(reducing).emitted().is_prefix_of(final(reducing).emitted()),
        final(reducing).drained() == old(reducing).drained(),
        final(reducing).initialized() == old(reducing).initialized(),
        final(reducing).collecting() == old(reducing).collecting(),
        forall|s: Seq<<S::Item as DeepView>::V>, c: bool| #[trigger]
            final(reducing).denote(s, c) == old(reducing).denote(s, c),
        forall|s: Seq<<S::Item as DeepView>::V>|
            #![trigger final(reducing).stops(s)]
            #![trigger old(reducing).stops(s)]
            final(reducing).stops(s) == old(reducing).stops(s),
        forall|k: int|
            old(reducing).seen().len() <= k < final(reducing).seen().len() ==> !(
            #[trigger] old(reducing).stops(final(reducing).seen().take(k))),
        old(reducing).seen().len() <= final(reducing).seen().len() <= old(reducing).seen().len()
            + source.remaining().len(),
        final(reducing).seen() == old(reducing).seen() + views(source.remaining()).take(
            final(reducing).seen().len() - old(reducing).seen().len(),
        ),
        final(reducing).halted() || final(reducing).failure() is Some || final(reducing).seen()
            == old(reducing).seen() + views(source.remaining()),
        r is Ok ==> final(reducing).failure() is None,
        r matches Err(e) ==> final(reducing).failure() == Some(e),
        r == Ok::<StepResult, R::Error>(StepResult::Stop) <==> final(reducing).halted(),
        r is Ok && !final(reducing).halted() ==> r == Ok::<StepResult, R::Error>(
            StepResult::Continue,
        ),
        old(reducing).collecting() ==> r is Ok,
        source.remaining().len() == 0 ==> r == Ok::<StepResult, R::Error>(StepResult::Continue)
            && *final(reducing) == *old(reducing),
{
    let mut rest = source;
    let ghost before = reducing.seen();
    let ghost mut fed: Seq<<S::Item as DeepView>::V> = Seq::empty();
    let mut outcome: Result<StepResult, R::Error> = Ok(StepResult::Continue);
    loop
        invariant_except_break
            !reducing.halted(),
            reducing.failure() is None,
            outcome == Ok::<StepResult, R::Error>(StepResult::Continue),
        invariant
            rest.obeys_prophetic_iter_laws(),
            rest.decrease() is Some,
            reducing.wf(),
            !reducing.completed(),
            old(reducing).emitted().is_prefix_of(reducing.emitted()),
            reducing.drained() == old(reducing).drained(),
            reducing.initialized() == old(reducing).initialized(),
            reducing.collecting() == old(reducing).collecting(),
            forall|s: Seq<<S::Item as DeepView>::V>, c: bool| #[trigger]
                reducing.denote(s, c) == old(reducing).denote(s, c),
            forall|s: Seq<<S::Item as DeepView>::V>|
                #![trigger reducing.stops(s)]
                #![trigger old(reducing).stops(s)]
                reducing.stops(s) == old(reducing).stops(s),
            forall|k: int|
                before.len() <= k < reducing.seen().len() ==> !(#[trigger] old(reducing).stops(
                    reducing.seen().take(k),
                )),
            reducing.seen() == before + fed,
            fed + views(rest.remaining()) == views(source.remaining()),
            outcome is Ok ==> reducing.failure() is None,
            outcome matches Err(e) ==> reducing.failure() == Some(e),
            outcome == Ok::<StepResult, R::Error>(StepResult::Stop) <==> reducing.halted(),
            outcome is Ok && !reducing.halted() ==> outcome == Ok::<StepResult, R::Error>(
                StepResult::Continue,
            ),
            old(reducing).collecting() ==> outcome is Ok,
            fed.len() == 0 ==> *reducing == *old(reducing) && outcome == Ok::<
                StepResult,
                R::Error,
            >(StepResult::Continue),
            fed.len() <= views(source.remaining()).len(),
        ensures
            reducing.halted() || reducing.failure() is Some || rest.remaining().len() == 0,
        decreases rest.decrease()->0,
    {
        match rest.next() {
            None => {
                break ;
            },
            Some(value) => {
                proof {
                    let now = reducing.seen();
                    reducing.lemma_stops();
                    assert forall|k: int| before.len() <= k < now.len() + 1 implies !(
                    #[trigger] old(reducing).stops(now.push(value.deep_view()).take(k))) by {
                        if k < now.len() {
                            assert(now.push(value.deep_view()).take(k) =~= now.take(k));
                        } else {
                            assert(now.push(value.deep_view()).take(k) =~= now);
                        }
                    }
                    assert(fed.push(value.deep_view()) + views(rest.remaining()) =~= fed + views(
                        seq![value] + rest.remaining(),
                    ));
                    assert((before + fed).push(value.deep_view()) =~= before + fed.push(
                        value.deep_view(),
                    ));
                    fed = fed.push(value.deep_view());
                }
                match reducing.step(value) {
                    Ok(StepResult::Continue) => {},
                    Ok(StepResult::Stop) => {
                        outcome = Ok(StepResult::Stop);
                        break ;
                    },
                    Err(e) => {
                        outcome = Err(e);
                        break ;
                    },
                }
            },
        }
    }
    assert(views(source.remaining()).take(fed.len() as int) =~= fed);
    assert(rest.remaining().len() == 0 ==> fed =~= views(source.remaining()));
    outcome
}

} // verus!
