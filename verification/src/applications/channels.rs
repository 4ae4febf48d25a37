use crate::{fresh, Reducing, StepResult, Transducer};
use std::marker::PhantomData;
use std::sync::mpsc::{channel, Receiver, SendError, Sender};
use vstd::prelude::*;

verus! {

/// The sending half of std's channel. Verus sees nothing inside it.
#[verifier::external_type_specification]
#[verifier::external_body]
#[verifier::reject_recursive_types(T)]
pub struct ExSender<T>(Sender<T>);

/// The receiving half of std's channel. Verus sees nothing inside it.
#[verifier::external_type_specification]
#[verifier::external_body]
#[verifier::reject_recursive_types(T)]
pub struct ExReceiver<T>(Receiver<T>);

/// The error of a send on a channel whose receiver is gone. It holds the value that
/// could not be sent, in its one public field.
#[verifier::external_type_specification]
pub struct ExSendError<T>(SendError<T>);

/// `std::sync::mpsc::channel` makes a connected pair. Nothing is claimed of it.
pub assume_specification<T>[ channel::<T> ]() -> (pair: (Sender<T>, Receiver<T>));

/// `Sender::send` hands a value to the channel, or fails if the receiver is gone. Which of
/// the two happens depends on the other end; claimed is only that a failure gives the
/// value back inside the error.
pub assume_specification<T>[ Sender::<T>::send ](tx: &Sender<T>, t: T) -> (r: Result<
    (),
    SendError<T>,
>)
    ensures
        r matches Err(e) ==> e.0 == t,
;

/// What a sink tells its chain after a send: `Continue` if the channel took the value,
/// the channel's own error if it did not.
pub fn signal_of<T>(outcome: Result<(), SendError<T>>) -> (r: Result<StepResult, SendError<T>>)
    ensures
        outcome is Ok ==> r == Ok::<StepResult, SendError<T>>(StepResult::Continue),
        outcome matches Err(e) ==> r == Err::<StepResult, SendError<T>>(e),
{
    match outcome {
        Ok(_) => Ok(StepResult::Continue),
        Err(e) => Err(e),
    }
}

/// What a sender tells its caller after a step: whether the chain takes more, or the
/// chain's own error.
pub fn answer_of<E>(signal: Result<StepResult, E>) -> (r: Result<bool, E>)
    ensures
        signal == Ok::<StepResult, E>(StepResult::Continue) ==> r == Ok::<bool, E>(true),
        signal == Ok::<StepResult, E>(StepResult::Stop) ==> r == Ok::<bool, E>(false),
        signal matches Err(e) ==> r == Err::<bool, E>(e),
{
    match signal {
        Ok(StepResult::Continue) => Ok(true),
        Ok(StepResult::Stop) => Ok(false),
        Err(e) => Err(e),
    }
}

/// The sink that forwards every value over a channel.
#[verifier::reject_recursive_types(T)]
pub struct SenderReducer<T: DeepView> {
    tx: Sender<T>,
    seen: Ghost<Seq<T::V>>,
    sent: Ghost<Seq<T::V>>,
    failure: Ghost<Option<SendError<T>>>,
    started: Ghost<bool>,
    done: Ghost<bool>,
}

impl<T: DeepView> SenderReducer<T> {
    /// The sending half this sink sends on.
    pub closed spec fn sender(&self) -> Sender<T> {
        self.tx
    }

    /// A sink that sends on `tx` and has sent nothing yet.
    pub fn new(tx: Sender<T>) -> (s: Self)
        ensures
            s.sender() == tx,
            fresh(&s),
            !s.initialized(),
            s.emitted() =~= Seq::empty(),
            !s.collecting(),
            forall|i: Seq<T::V>, c: bool| #[trigger] s.denote(i, c) == i,
    {
        SenderReducer {
            tx: tx,
            seen: Ghost(Seq::empty()),
            sent: Ghost(Seq::empty()),
            failure: Ghost(None),
            started: Ghost(false),
            done: Ghost(false),
        }
    }
}

impl<T: DeepView> Reducing for SenderReducer<T> {
    type Input = T;

    type Item = T;

    type Error = SendError<T>;

    closed spec fn wf(&self) -> bool {
        self.failure@ is None ==> self.sent@ == self.seen@
    }

    closed spec fn seen(&self) -> Seq<T::V> {
        self.seen@
    }

    /// The values the channel took, in order.
    closed spec fn emitted(&self) -> Seq<T::V> {
        self.sent@
    }

    open spec fn drained(&self) -> nat {
        0
    }

    open spec fn halted(&self) -> bool {
        false
    }

    closed spec fn failure(&self) -> Option<SendError<T>> {
        self.failure@
    }

    closed spec fn completed(&self) -> bool {
        self.done@
    }

    closed spec fn initialized(&self) -> bool {
        self.started@
    }

    open spec fn collecting(&self) -> bool {
        false
    }

    open spec fn denote(&self, input: Seq<T::V>, closing: bool) -> Seq<T::V> {
        input
    }

    open spec fn stops(&self, input: Seq<T::V>) -> bool {
        false
    }

    proof fn lemma_stops(&self) {
    }

    proof fn lemma_emitted(&self) {
    }

    proof fn lemma_halted(&self, more: Seq<T::V>, closing: bool) {
    }

    /// Takes note that a run starts; nothing is sent.
    fn init(&mut self)
        ensures
            final(self).sender() == old(self).sender(),
    {
        proof {
            self.started@ = true;
        }
    }

    /// Sends the value. The answer is `Continue` if the channel took it, and the
    /// channel's error if it did not.
    fn step(&mut self, value: T) -> (r: Result<StepResult, SendError<T>>)
        ensures
            final(self).sender() == old(self).sender(),
            r is Ok ==> r == Ok::<StepResult, SendError<T>>(StepResult::Continue)
                && final(self).emitted() == old(self).emitted().push(value.deep_view()),
            r matches Err(e) ==> e.0 == value && final(self).emitted() == old(self).emitted(),
    {
        let ghost v = value.deep_view();
        proof {
            self.seen@ = self.seen@.push(v);
        }
        let r = signal_of(self.tx.send(value));
        proof {
            if r is Ok {
                self.sent@ = self.sent@.push(v);
            } else {
                self.failure@ = Some(r->Err_0);
            }
            assert(self.sent@.subrange(0, old(self).sent@.len() as int) =~= old(self).sent@);
        }
        r
    }

    /// Sends nothing, and leaves the channel open for as long as the sender lives.
    fn complete(&mut self) -> (r: Result<(), SendError<T>>)
        ensures
            final(self).sender() == old(self).sender(),
            r is Ok,
            final(self).emitted() == old(self).emitted(),
    {
        proof {
            self.done@ = true;
            assert(self.sent@.subrange(0, self.sent@.len() as int) =~= self.sent@);
        }
        Ok(())
    }

    fn drain(&mut self) -> (out: Vec<T>) {
        Vec::new()
    }
}

/// The sending end of a transducing channel: every value sent runs through the chain,
/// and what the chain emits goes over the channel.
pub struct TransducingSender<I, O, SR> {
    rf: SR,
    accepting: bool,
    closed: bool,
    types: PhantomData<(I, O)>,
}

impl<I: DeepView, O: DeepView, SR: Reducing<Input = I, Item = O>> TransducingSender<I, O, SR> {
    /// The invariant every operation keeps.
    pub closed spec fn wf(&self) -> bool {
        &&& self.rf.wf()
        &&& self.closed == self.rf.completed()
        &&& self.accepting <==> !self.rf.halted() && self.rf.failure() is None
            && !self.rf.completed()
    }

    /// The chain takes input: it has not stopped, its sink has not failed, and the
    /// sender is not closed.
    pub closed spec fn accepting(&self) -> bool {
        self.accepting
    }

    /// `close` has run.
    pub closed spec fn closed(&self) -> bool {
        self.closed
    }

    /// The chain has answered `Stop`.
    pub closed spec fn halted(&self) -> bool {
        self.rf.halted()
    }

    /// The channel has refused a value.
    pub open spec fn failed(&self) -> bool {
        self.failure() is Some
    }

    /// The error with which the channel first refused a value, if it has.
    pub closed spec fn failure(&self) -> Option<SR::Error> {
        self.rf.failure()
    }

    /// The values that went into the chain, in order.
    pub closed spec fn fed(&self) -> Seq<I::V> {
        self.rf.seen()
    }

    /// The values the channel took, in order.
    pub closed spec fn delivered(&self) -> Seq<O::V> {
        self.rf.emitted()
    }

    /// What the chain makes of `input`, completed if `closing`.
    pub closed spec fn denote(&self, input: Seq<I::V>, closing: bool) -> Seq<O::V> {
        self.rf.denote(input, closing)
    }

    /// Whether the chain has answered `Stop` by the time it has been fed `input`.
    pub closed spec fn stops(&self, input: Seq<I::V>) -> bool {
        self.rf.stops(input)
    }

    /// As long as the channel has refused nothing, it has taken exactly what the chain
    /// makes of the values fed to it.
    pub proof fn lemma_delivered(&self)
        requires
            self.wf(),
            !self.failed(),
        ensures
            self.delivered() == self.denote(self.fed(), self.closed()),
    {
        self.rf.lemma_emitted();
    }

    /// Once the chain has stopped, no further value could have changed what it delivers.
    pub proof fn lemma_stopped(&self, more: Seq<I::V>, closing: bool)
        requires
            self.wf(),
            self.halted(),
        ensures
            self.denote(self.fed() + more, closing) == self.denote(self.fed(), closing),
    {
        self.rf.lemma_halted(more, closing);
    }

    /// Runs one value through the chain. `Ok(true)`: the chain takes more. `Ok(false)`:
    /// it takes no more; if it had already stopped taking input, `f` is dropped unseen.
    /// `Err`: the channel refused a value.
    pub fn send(&mut self, f: I) -> (r: Result<bool, SR::Error>)
        requires
            old(self).wf(),
        ensures
            final(self).wf(),
            forall|s: Seq<I::V>, c: bool| #[trigger]
                final(self).denote(s, c) == old(self).denote(s, c),
            final(self).closed() == old(self).closed(),
            old(self).delivered().is_prefix_of(final(self).delivered()),
            old(self).accepting() ==> final(self).fed() == old(self).fed().push(f.deep_view()),
            !old(self).accepting() ==> r == Ok::<bool, SR::Error>(false) && final(self).fed()
                == old(self).fed() && final(self).delivered() == old(self).delivered()
                && final(self).halted() == old(self).halted(),
            r is Err ==> old(self).accepting(),
            r is Ok ==> final(self).failure() == old(self).failure(),
            r matches Err(e) ==> final(self).failure() == Some(e),
            r == Ok::<bool, SR::Error>(true) <==> final(self).accepting(),
            old(self).accepting() ==> (r == Ok::<bool, SR::Error>(false) <==> final(self).halted()),
            old(self).accepting() && r is Ok ==> (r == Ok::<bool, SR::Error>(false)
                <==> final(self).stops(final(self).fed())),
            forall|s: Seq<I::V>|
                #![trigger final(self).stops(s)]
                #![trigger old(self).stops(s)]
                final(self).stops(s) == old(self).stops(s),
    {
        if !self.accepting {
            assert(self.rf.emitted().subrange(0, self.rf.emitted().len() as int)
                =~= self.rf.emitted());
            return Ok(false);
        }
        let signal = self.rf.step(f);
        proof {
            if signal is Ok {
                self.rf.lemma_stops();
            }
        }
        self.accepting = match &signal {
            Ok(StepResult::Continue) => true,
            _ => false,
        };
        answer_of(signal)
    }

    /// Completes the chain, which flushes what its stages still hold. A second call does
    /// nothing.
    pub fn close(&mut self) -> (r: Result<(), SR::Error>)
        requires
            old(self).wf(),
        ensures
            final(self).wf(),
            forall|s: Seq<I::V>, c: bool| #[trigger]
                final(self).denote(s, c) == old(self).denote(s, c),
            forall|s: Seq<I::V>|
                #![trigger final(self).stops(s)]
                #![trigger old(self).stops(s)]
                final(self).stops(s) == old(self).stops(s),
            final(self).closed(),
            !final(self).accepting(),
            final(self).fed() == old(self).fed(),
            final(self).halted() == old(self).halted(),
            old(self).delivered().is_prefix_of(final(self).delivered()),
            old(self).failed() ==> final(self).failure() == old(self).failure(),
            r is Ok ==> final(self).failure() == old(self).failure(),
            old(self).closed() ==> r is Ok && final(self).delivered() == old(self).delivered()
                && final(self).failure() == old(self).failure(),
            r matches Err(e) ==> final(self).failed() && (!old(self).failed()
                ==> final(self).failure() == Some(e)),
    {
        if self.closed {
            assert(self.rf.emitted().subrange(0, self.rf.emitted().len() as int)
                =~= self.rf.emitted());
            return Ok(());
        }
        self.closed = true;
        self.accepting = false;
        self.rf.complete()
    }
}

/// Makes a channel whose sending end runs every value through `transducer`.
pub fn transducing_channel<I: DeepView, O: DeepView, T, RO>(transducer: T) -> (pair: (
    TransducingSender<I, O, RO>,
    Receiver<O>,
)) where
    T: Transducer<SenderReducer<O>, RO = RO>,
    RO: Reducing<Input = I, Item = O, Error = SendError<O>>,

    requires
        transducer.wf(),
    ensures
        pair.0.wf(),
        pair.0.accepting(),
        !pair.0.closed(),
        pair.0.fed() == Seq::<I::V>::empty(),
        pair.0.delivered() == Seq::<O::V>::empty(),
        forall|s: Seq<I::V>, c: bool| #[trigger]
            pair.0.denote(s, c) == transducer.apply(s, c),
        forall|s: Seq<I::V>, d: spec_fn(Seq<O::V>) -> bool|
            (forall|m: Seq<O::V>| !(#[trigger] d(m))) ==> #[trigger] transducer.stops(s, d)
                == pair.0.stops(s),
{
    let (tx, rx) = channel();
    let sink = SenderReducer::new(tx);
    assert forall|d: spec_fn(Seq<O::V>) -> bool| (forall|m: Seq<O::V>| !(#[trigger] d(m)))
        implies crate::agree(d, sink) by {}
    let mut rf = transducer.new(sink);
    rf.init();
    let sender = TransducingSender { rf: rf, accepting: true, closed: false, types: PhantomData };
    (sender, rx)
}

} // verus!
