use crate::model::{
    after_n, chunked, expanded, first_n, leading, leftover, prefix_len, trailing, whole_chunks,
};
use crate::model::{
    lemma_chunks_add, lemma_chunks_push, lemma_expanded_add, lemma_expanded_push,
    lemma_prefix_len, lemma_prefix_len_add, lemma_prefix_len_one,
};
use crate::{feed, views, Reducing, StepResult, Transducer};
use std::collections::HashMap;
use std::hash::Hash;
use std::marker::PhantomData;
use vstd::prelude::*;
use vstd::std_specs::hash::obeys_key_model;

verus! {

/// `f` can turn a value seen as `a` into one seen as `b`.
pub open spec fn can_yield<F: Fn(I) -> O, I: DeepView, O: DeepView>(
    f: F,
    a: I::V,
    b: O::V,
) -> bool {
    exists|x: I, y: O| #[trigger] f.ensures((x,), y) && x.deep_view() == a && y.deep_view() == b
}

/// The function that a deterministic closure computes, over views.
pub open spec fn image_of<F: Fn(I) -> O, I: DeepView, O: DeepView>(f: F) -> spec_fn(I::V) -> O::V {
    |a: I::V| choose|b: O::V| can_yield(f, a, b)
}

/// What a deterministic predicate decides, over views.
pub open spec fn decision_of<F: Fn(&T) -> bool, T: DeepView>(f: F) -> spec_fn(T::V) -> bool {
    |a: T::V| exists|x: T| #[trigger] f.ensures((&x,), true) && x.deep_view() == a
}

/// `f` accepts every value and decides as `model` says.
pub open spec fn decides<F: Fn(&T) -> bool, T: DeepView>(
    f: F,
    model: spec_fn(T::V) -> bool,
) -> bool {
    &&& forall|x: T| #[trigger] f.requires((&x,))
    &&& forall|x: T, b: bool| #[trigger] f.ensures((&x,), b) ==> b == model(x.deep_view())
}

/// Applies a function to every value. `model` is the function on views that `f` computes.
#[verifier::reject_recursive_types(I)]
pub struct MapTransducer<F, I: DeepView, O: DeepView> {
    pub f: F,
    pub model: Ghost<spec_fn(I::V) -> O::V>,
}

/// `map` bound to a downstream.
#[verifier::reject_recursive_types(I)]
pub struct MapReducer<R, F, I: DeepView, O: DeepView> {
    rf: R,
    t: MapTransducer<F, I, O>,
    seen: Ghost<Seq<I::V>>,
    halted: Ghost<bool>,
}

impl<R, F, I: DeepView, O: DeepView> MapReducer<R, F, I, O> {
    /// The downstream this stage hands values to.
    pub closed spec fn inner(&self) -> R {
        self.rf
    }

    /// The transducer this stage was bound from.
    pub closed spec fn config(&self) -> MapTransducer<F, I, O> {
        self.t
    }
}

impl<F: Fn(I) -> O, I: DeepView, O: DeepView> MapTransducer<F, I, O> {
    /// The closure accepts every value and computes `model`.
    pub open spec fn valid(&self) -> bool {
        &&& forall|x: I| #[trigger] self.f.requires((x,))
        &&& forall|x: I, y: O| #[trigger]
            self.f.ensures((x,), y) ==> y.deep_view() == (self.model@)(x.deep_view())
    }
}

impl<F, I, O, RI> Transducer<RI> for MapTransducer<F, I, O> where
    F: Fn(I) -> O,
    I: DeepView,
    O: DeepView,
    RI: Reducing<Input = O>,
 {
    type RO = MapReducer<RI, F, I, O>;

    open spec fn wf(&self) -> bool {
        self.valid()
    }

    open spec fn apply(&self, input: Seq<I::V>, closing: bool) -> Seq<O::V> {
        input.map_values(self.model@)
    }

    open spec fn stops(&self, input: Seq<I::V>, downstream: spec_fn(Seq<O::V>) -> bool) -> bool {
        downstream(input.map_values(self.model@))
    }

    fn new(self, reducing_fn: RI) -> (ro: Self::RO)
        ensures
            ro.inner() == reducing_fn,
            ro.config() == self,
    {
        MapReducer { rf: reducing_fn, t: self, seen: Ghost(Seq::empty()), halted: Ghost(false) }
    }
}

impl<R, F, I, O> Reducing for MapReducer<R, F, I, O> where
    R: Reducing<Input = O>,
    F: Fn(I) -> O,
    I: DeepView,
    O: DeepView,
 {
    type Input = I;
    type Item = R::Item;
    type Error = R::Error;

    closed spec fn wf(&self) -> bool {
        &&& self.t.valid()
        &&& self.rf.wf()
        &&& self.rf.seen() =~= self.seen@.map_values(self.t.model@)
        &&& self.halted@ == self.rf.halted()
    }

    closed spec fn seen(&self) -> Seq<I::V> {
        self.seen@
    }

    open spec fn emitted(&self) -> Seq<<R::Item as DeepView>::V> {
        self.inner().emitted()
    }

    open spec fn drained(&self) -> nat {
        self.inner().drained()
    }

    closed spec fn halted(&self) -> bool {
        self.halted@
    }

    open spec fn failure(&self) -> Option<R::Error> {
        self.inner().failure()
    }

    open spec fn completed(&self) -> bool {
        self.inner().completed()
    }

    open spec fn initialized(&self) -> bool {
        self.inner().initialized()
    }

    open spec fn collecting(&self) -> bool {
        self.inner().collecting()
    }

    closed spec fn denote(&self, input: Seq<I::V>, closing: bool) -> Seq<
        <R::Item as DeepView>::V,
    > {
        self.rf.denote(input.map_values(self.t.model@), closing)
    }

    closed spec fn stops(&self, input: Seq<I::V>) -> bool {
        self.rf.stops(input.map_values(self.t.model@))
    }

    proof fn lemma_stops(&self) {
        self.rf.lemma_stops();
    }

    proof fn lemma_emitted(&self) {
        self.rf.lemma_emitted();
    }

    proof fn lemma_halted(&self, more: Seq<I::V>, closing: bool) {
        if self.halted@ {
            let g = self.t.model@;
            self.rf.lemma_halted(more.map_values(g), closing);
            assert((self.seen@ + more).map_values(g) =~= self.seen@.map_values(g)
                + more.map_values(g));
        }
    }

    /// Passes the announcement of a run downstream, and changes nothing of its own.
    fn init(&mut self)
        ensures
            final(self).config() == old(self).config(),
            final(self).inner().initialized(),
            final(self).inner().seen() == old(self).inner().seen(),
    {
        self.rf.init();
    }

    /// Hands `f(value)` downstream and passes the answer on.
    fn step(&mut self, value: I) -> (r: Result<StepResult, R::Error>)
        ensures
            final(self).config() == old(self).config(),
            final(self).inner().seen() == old(self).inner().seen().push(
                (old(self).config().model@)(value.deep_view()),
            ),
            final(self).halted() == final(self).inner().halted(),
    {
        let ghost v = value.deep_view();
        let y = (self.t.f)(value);
        let r = self.rf.step(y);
        proof {
            self.seen@ = self.seen@.push(v);
            self.halted@ = r == Ok::<StepResult, R::Error>(StepResult::Stop);
            assert(self.seen@.map_values(self.t.model@) =~= old(self).seen@.map_values(
                self.t.model@,
            ).push(y.deep_view()));
        }
        r
    }

    /// Passes completion downstream; the stage itself holds nothing back.
    fn complete(&mut self) -> (r: Result<(), R::Error>)
        ensures
            final(self).config() == old(self).config(),
            final(self).inner().seen() == old(self).inner().seen(),
            final(self).inner().completed(),
    {
        self.rf.complete()
    }

    fn drain(&mut self) -> (out: Vec<R::Item>) {
        self.rf.drain()
    }
}

/// A stage that replaces every value `x` by `f(x)`.
pub fn map<F, I: DeepView, O: DeepView>(f: F) -> (t: MapTransducer<F, I, O>) where F: Fn(I) -> O
    ensures
        t.f == f,
        t.model@ == image_of(f),
{
    MapTransducer { f: f, model: Ghost(image_of(f)) }
}

/// Replaces every value by the values a function expands it to. `model` is the function
/// on views that `f` computes.
#[verifier::reject_recursive_types(I)]
pub struct MapcatTransducer<F, I: DeepView, O: DeepView> {
    pub f: F,
    pub model: Ghost<spec_fn(I::V) -> Seq<O::V>>,
}

/// `mapcat` bound to a downstream.
#[verifier::reject_recursive_types(I)]
pub struct MapcatReducer<R, F, I: DeepView, O: DeepView> {
    rf: R,
    t: MapcatTransducer<F, I, O>,
    seen: Ghost<Seq<I::V>>,
    halted: Ghost<bool>,
}

impl<R, F, I: DeepView, O: DeepView> MapcatReducer<R, F, I, O> {
    /// The downstream this stage hands values to.
    pub closed spec fn inner(&self) -> R {
        self.rf
    }

    /// The transducer this stage was bound from.
    pub closed spec fn config(&self) -> MapcatTransducer<F, I, O> {
        self.t
    }
}

impl<F: Fn(I) -> Vec<O>, I: DeepView, O: DeepView> MapcatTransducer<F, I, O> {
    /// The closure accepts every value and expands it as `model` says.
    pub open spec fn valid(&self) -> bool {
        &&& forall|x: I| #[trigger] self.f.requires((x,))
        &&& forall|x: I, y: Vec<O>| #[trigger]
            self.f.ensures((x,), y) ==> y.deep_view() == (self.model@)(x.deep_view())
    }
}

impl<F, I, O, RI> Transducer<RI> for MapcatTransducer<F, I, O> where
    F: Fn(I) -> Vec<O>,
    I: DeepView,
    O: DeepView,
    RI: Reducing<Input = O>,
 {
    type RO = MapcatReducer<RI, F, I, O>;

    open spec fn wf(&self) -> bool {
        self.valid()
    }

    open spec fn apply(&self, input: Seq<I::V>, closing: bool) -> Seq<O::V> {
        expanded(input, self.model@)
    }

    open spec fn stops(&self, input: Seq<I::V>, downstream: spec_fn(Seq<O::V>) -> bool) -> bool {
        exists|k: int|
            0 <= k <= expanded(input, self.model@).len() && #[trigger] downstream(
                expanded(input, self.model@).take(k),
            )
    }

    fn new(self, reducing_fn: RI) -> (ro: Self::RO)
        ensures
            ro.inner() == reducing_fn,
            ro.config() == self,
    {
        let ro = MapcatReducer {
            rf: reducing_fn,
            t: self,
            seen: Ghost(Seq::empty()),
            halted: Ghost(false),
        };
        proof {
            reducing_fn.lemma_stops();
            let all = expanded(ro.seen@, self.model@);
            assert(all =~= Seq::<O::V>::empty());
            assert forall|k: int| 0 <= k <= all.len() implies !(#[trigger] reducing_fn.stops(
                all.take(k),
            )) by {
                assert(all.take(k) =~= reducing_fn.seen());
            }
            assert forall|s: Seq<I::V>, d: spec_fn(Seq<O::V>) -> bool|
                crate::agree(d, reducing_fn) implies #[trigger] Transducer::<RI>::stops(
                &self,
                s,
                d,
            ) == ro.stops(s) by {
                let e = expanded(s, self.model@);
                if Transducer::<RI>::stops(&self, s, d) {
                    let k = choose|k: int| 0 <= k <= e.len() && #[trigger] d(e.take(k));
                    assert(d(e.take(k)));
                    assert(reducing_fn.stops(e.take(k)));
                    assert(ro.rf.stops(e.take(k)));
                    assert(0 <= k <= expanded(s, ro.t.model@).len());
                    assert(ro.rf.stops(expanded(s, ro.t.model@).take(k)));
                    assert(exists|k: int|
                        0 <= k <= expanded(s, ro.t.model@).len() && #[trigger] ro.rf.stops(
                            expanded(s, ro.t.model@).take(k),
                        ));
                    assert(ro.stops(s));
                }
                if ro.stops(s) {
                    let k = choose|k: int| 0 <= k <= e.len() && #[trigger] ro.rf.stops(e.take(k));
                    assert(ro.rf.stops(e.take(k)));
                    assert(d(e.take(k)));
                    assert(Transducer::<RI>::stops(&self, s, d));
                }
            }
        }
        ro
    }
}

impl<R, F, I, O> MapcatReducer<R, F, I, O> where
    R: Reducing<Input = O>,
    F: Fn(I) -> Vec<O>,
    I: DeepView,
    O: DeepView,
 {
    /// Two states of one configuration whose downstreams stop alike stop alike.
    proof fn lemma_same_stops(a: Self, b: Self)
        requires
            a.t == b.t,
            forall|m: Seq<O::V>|
                #![trigger a.rf.stops(m)]
                #![trigger b.rf.stops(m)]
                a.rf.stops(m) == b.rf.stops(m),
        ensures
            forall|s: Seq<I::V>|
                #![trigger a.stops(s)]
                #![trigger b.stops(s)]
                a.stops(s) == b.stops(s),
    {
        assert forall|s: Seq<I::V>| a.stops(s) == b.stops(s) by {
            let e = expanded(s, a.t.model@);
            if a.stops(s) {
                let k = choose|k: int| 0 <= k <= e.len() && #[trigger] a.rf.stops(e.take(k));
                assert(b.rf.stops(e.take(k)));
            }
            if b.stops(s) {
                let k = choose|k: int| 0 <= k <= e.len() && #[trigger] b.rf.stops(e.take(k));
                assert(a.rf.stops(e.take(k)));
            }
        }
    }
}

impl<R, F, I, O> Reducing for MapcatReducer<R, F, I, O> where
    R: Reducing<Input = O>,
    F: Fn(I) -> Vec<O>,
    I: DeepView,
    O: DeepView,
 {
    type Input = I;

    type Item = R::Item;

    type Error = R::Error;

    closed spec fn wf(&self) -> bool {
        let all = expanded(self.seen@, self.t.model@);
        &&& self.t.valid()
        &&& self.rf.wf()
        &&& self.rf.seen().len() <= all.len()
        &&& self.rf.seen() =~= all.take(self.rf.seen().len() as int)
        &&& !self.halted@ && self.rf.failure() is None ==> self.rf.seen().len() == all.len()
        &&& self.halted@ == self.rf.halted()
        &&& !self.halted@ && self.rf.failure() is None ==> forall|k: int|
            0 <= k <= all.len() ==> !(#[trigger] self.rf.stops(all.take(k)))
    }

    closed spec fn seen(&self) -> Seq<I::V> {
        self.seen@
    }

    open spec fn emitted(&self) -> Seq<<R::Item as DeepView>::V> {
        self.inner().emitted()
    }

    open spec fn drained(&self) -> nat {
        self.inner().drained()
    }

    closed spec fn halted(&self) -> bool {
        self.halted@
    }

    open spec fn failure(&self) -> Option<R::Error> {
        self.inner().failure()
    }

    open spec fn completed(&self) -> bool {
        self.inner().completed()
    }

    open spec fn initialized(&self) -> bool {
        self.inner().initialized()
    }

    open spec fn collecting(&self) -> bool {
        self.inner().collecting()
    }

    closed spec fn denote(&self, input: Seq<I::V>, closing: bool) -> Seq<
        <R::Item as DeepView>::V,
    > {
        self.rf.denote(expanded(input, self.t.model@), closing)
    }

    closed spec fn stops(&self, input: Seq<I::V>) -> bool {
        exists|k: int|
            0 <= k <= expanded(input, self.t.model@).len() && #[trigger] self.rf.stops(
                expanded(input, self.t.model@).take(k),
            )
    }

    proof fn lemma_stops(&self) {
        self.rf.lemma_stops();
        let all = expanded(self.seen@, self.t.model@);
        if self.halted@ {
            assert(self.rf.stops(all.take(self.rf.seen().len() as int)));
        }
    }

    proof fn lemma_emitted(&self) {
        let all = expanded(self.seen@, self.t.model@);
        self.rf.lemma_emitted();
        if self.halted@ {
            let rest = all.skip(self.rf.seen().len() as int);
            self.rf.lemma_halted(rest, self.rf.completed());
            assert(all =~= self.rf.seen() + rest);
        } else {
            assert(all =~= self.rf.seen());
        }
    }

    proof fn lemma_halted(&self, more: Seq<I::V>, closing: bool) {
        if self.halted@ {
            let g = self.t.model@;
            let all = expanded(self.seen@, g);
            let rest = all.skip(self.rf.seen().len() as int);
            lemma_expanded_add(self.seen@, more, g);
            self.rf.lemma_halted(rest, closing);
            self.rf.lemma_halted(rest + expanded(more, g), closing);
            assert(all =~= self.rf.seen() + rest);
            assert(expanded(self.seen@ + more, g) =~= self.rf.seen() + (rest + expanded(more, g)));
        }
    }

    /// Passes the announcement of a run downstream, and changes nothing of its own.
    fn init(&mut self)
        ensures
            final(self).config() == old(self).config(),
            final(self).inner().initialized(),
            final(self).inner().seen() == old(self).inner().seen(),
    {
        let ghost pre = *self;
        self.rf.init();
        proof {
            Self::lemma_same_stops(pre, *self);
        }
    }

    /// Hands the values of `f(value)` downstream one by one, up to the first that is
    /// answered with `Stop` or refused.
    fn step(&mut self, value: I) -> (r: Result<StepResult, R::Error>)
        ensures
            final(self).config() == old(self).config(),
            ({
                let before = old(self).inner().seen();
                let after = final(self).inner().seen();
                let parts = (old(self).config().model@)(value.deep_view());
                &&& before.len() <= after.len() <= before.len() + parts.len()
                &&& after == before + parts.take(after.len() - before.len())
                &&& r == Ok::<StepResult, R::Error>(StepResult::Continue) ==> after == before
                    + parts
            }),
            final(self).halted() == final(self).inner().halted(),
            (old(self).config().model@)(value.deep_view()).len() == 0 ==> final(self).inner()
                == old(self).inner() && r == Ok::<StepResult, R::Error>(StepResult::Continue),
    {
        let ghost pre = *self;
        let ghost v = value.deep_view();
        let ghost g = self.t.model@;
        let ghost before = self.rf.seen();
        let parts = (self.t.f)(value);
        proof {
            lemma_expanded_push(self.seen@, v, g);
            assert(views(parts@) =~= parts.deep_view());
            self.seen@ = self.seen@.push(v);
        }
        let r = feed(parts.into_iter(), &mut self.rf);
        proof {
            self.halted@ = r == Ok::<StepResult, R::Error>(StepResult::Stop);
            let all = expanded(self.seen@, g);
            assert(all =~= before + g(v));
            assert(self.rf.seen() =~= all.take(self.rf.seen().len() as int));
            Self::lemma_same_stops(pre, *self);
            if !self.halted@ && self.rf.failure() is None {
                let was = expanded(pre.seen@, g);
                self.rf.lemma_stops();
                assert(was =~= before);
                assert(self.rf.seen() =~= all);
                assert forall|k: int| 0 <= k <= all.len() implies !(#[trigger] self.rf.stops(
                    all.take(k),
                )) by {
                    if k <= before.len() {
                        assert(all.take(k) =~= was.take(k));
                        assert(!pre.rf.stops(was.take(k)));
                        assert(pre.rf.stops(was.take(k)) == self.rf.stops(was.take(k)));
                    } else if k < all.len() {
                        assert(all.take(k) =~= self.rf.seen().take(k));
                        assert(!pre.rf.stops(self.rf.seen().take(k)));
                        assert(pre.rf.stops(self.rf.seen().take(k)) == self.rf.stops(
                            self.rf.seen().take(k),
                        ));
                    } else {
                        assert(all.take(k) =~= self.rf.seen());
                    }
                }
            }
        }
        r
    }

    /// Passes completion downstream; the stage itself holds nothing back.
    fn complete(&mut self) -> (r: Result<(), R::Error>)
        ensures
            final(self).config() == old(self).config(),
            final(self).inner().seen() == old(self).inner().seen(),
            final(self).inner().completed(),
    {
        let ghost pre = *self;
        let r = self.rf.complete();
        proof {
            Self::lemma_same_stops(pre, *self);
        }
        r
    }

    fn drain(&mut self) -> (out: Vec<R::Item>) {
        let ghost pre = *self;
        let out = self.rf.drain();
        proof {
            Self::lemma_same_stops(pre, *self);
        }
        out
    }
}

/// A stage that replaces every value `x` by the values of `f(x)`, in order.
pub fn mapcat<F, I: DeepView, O: DeepView>(f: F) -> (t: MapcatTransducer<F, I, O>) where
    F: Fn(I) -> Vec<O>,

    ensures
        t.f == f,
        t.model@ == image_of::<F, I, Vec<O>>(f),
{
    MapcatTransducer { f: f, model: Ghost(image_of::<F, I, Vec<O>>(f)) }
}

/// Lets through the values on which the predicate answers as `inclusive`. `model` is the
/// predicate on views that `f` computes.
#[verifier::reject_recursive_types(T)]
pub struct FilterTransducer<F, T: DeepView> {
    pub f: F,
    pub inclusive: bool,
    pub model: Ghost<spec_fn(T::V) -> bool>,
}

/// `filter` or `remove` bound to a downstream.
#[verifier::reject_recursive_types(T)]
pub struct FilterReducer<R, F, T: DeepView> {
    rf: R,
    t: FilterTransducer<F, T>,
    seen: Ghost<Seq<T::V>>,
    halted: Ghost<bool>,
}

impl<R, F, T: DeepView> FilterReducer<R, F, T> {
    /// The downstream this stage hands values to.
    pub closed spec fn inner(&self) -> R {
        self.rf
    }

    /// The transducer this stage was bound from.
    pub closed spec fn config(&self) -> FilterTransducer<F, T> {
        self.t
    }
}

impl<F, T: DeepView> FilterTransducer<F, T> {
    /// Which values pass.
    pub open spec fn keeps(&self) -> spec_fn(T::V) -> bool {
        |a: T::V| (self.model@)(a) == self.inclusive
    }
}

impl<F, T, RI> Transducer<RI> for FilterTransducer<F, T> where
    F: Fn(&T) -> bool,
    T: DeepView,
    RI: Reducing<Input = T>,
 {
    type RO = FilterReducer<RI, F, T>;

    open spec fn wf(&self) -> bool {
        decides(self.f, self.model@)
    }

    open spec fn apply(&self, input: Seq<T::V>, closing: bool) -> Seq<T::V> {
        input.filter(self.keeps())
    }

    open spec fn stops(&self, input: Seq<T::V>, downstream: spec_fn(Seq<T::V>) -> bool) -> bool {
        downstream(input.filter(self.keeps()))
    }

    fn new(self, reducing_fn: RI) -> (ro: Self::RO)
        ensures
            ro.inner() == reducing_fn,
            ro.config() == self,
    {
        proof {
            reveal(Seq::filter);
        }
        FilterReducer { rf: reducing_fn, t: self, seen: Ghost(Seq::empty()), halted: Ghost(false) }
    }
}

impl<R, F, T> Reducing for FilterReducer<R, F, T> where
    R: Reducing<Input = T>,
    F: Fn(&T) -> bool,
    T: DeepView,
 {
    type Input = T;

    type Item = R::Item;

    type Error = R::Error;

    closed spec fn wf(&self) -> bool {
        &&& decides(self.t.f, self.t.model@)
        &&& self.rf.wf()
        &&& self.rf.seen() =~= self.seen@.filter(self.t.keeps())
        &&& self.halted@ == self.rf.halted()
    }

    closed spec fn seen(&self) -> Seq<T::V> {
        self.seen@
    }

    open spec fn emitted(&self) -> Seq<<R::Item as DeepView>::V> {
        self.inner().emitted()
    }

    open spec fn drained(&self) -> nat {
        self.inner().drained()
    }

    closed spec fn halted(&self) -> bool {
        self.halted@
    }

    open spec fn failure(&self) -> Option<R::Error> {
        self.inner().failure()
    }

    open spec fn completed(&self) -> bool {
        self.inner().completed()
    }

    open spec fn initialized(&self) -> bool {
        self.inner().initialized()
    }

    open spec fn collecting(&self) -> bool {
        self.inner().collecting()
    }

    closed spec fn denote(&self, input: Seq<T::V>, closing: bool) -> Seq<
        <R::Item as DeepView>::V,
    > {
        self.rf.denote(input.filter(self.t.keeps()), closing)
    }

    closed spec fn stops(&self, input: Seq<T::V>) -> bool {
        self.rf.stops(input.filter(self.t.keeps()))
    }

    proof fn lemma_stops(&self) {
        self.rf.lemma_stops();
    }

    proof fn lemma_emitted(&self) {
        self.rf.lemma_emitted();
    }

    proof fn lemma_halted(&self, more: Seq<T::V>, closing: bool) {
        if self.halted@ {
            let keeps = self.t.keeps();
            Seq::filter_distributes_over_add(self.seen@, more, keeps);
            self.rf.lemma_halted(more.filter(keeps), closing);
        }
    }

    /// Passes the announcement of a run downstream, and changes nothing of its own.
    fn init(&mut self)
        ensures
            final(self).config() == old(self).config(),
            final(self).inner().initialized(),
            final(self).inner().seen() == old(self).inner().seen(),
    {
        proof {
            reveal(Seq::filter);
        }
        self.rf.init();
    }

    /// Hands the value downstream if the predicate answers as `inclusive` asks.
    fn step(&mut self, value: T) -> (r: Result<StepResult, R::Error>)
        ensures
            final(self).config() == old(self).config(),
            final(self).inner().seen() == if (old(self).config().keeps())(value.deep_view()) {
                old(self).inner().seen().push(value.deep_view())
            } else {
                old(self).inner().seen()
            },
            final(self).halted() == final(self).inner().halted(),
            !(old(self).config().keeps())(value.deep_view()) ==> r == Ok::<StepResult, R::Error>(
                StepResult::Continue,
            ) && final(self).inner() == old(self).inner(),
    {
        let ghost v = value.deep_view();
        proof {
            reveal(Seq::filter);
            assert(self.seen@.push(v).drop_last() =~= self.seen@);
            self.seen@ = self.seen@.push(v);
        }
        let verdict = (self.t.f)(&value);
        let r = if verdict == self.t.inclusive {
            self.rf.step(value)
        } else {
            Ok(StepResult::Continue)
        };
        proof {
            self.halted@ = r == Ok::<StepResult, R::Error>(StepResult::Stop);
        }
        r
    }

    /// Passes completion downstream; the stage itself holds nothing back.
    fn complete(&mut self) -> (r: Result<(), R::Error>)
        ensures
            final(self).config() == old(self).config(),
            final(self).inner().seen() == old(self).inner().seen(),
            final(self).inner().completed(),
    {
        self.rf.complete()
    }

    fn drain(&mut self) -> (out: Vec<R::Item>) {
        self.rf.drain()
    }
}

/// A stage that lets through the values on which `f` answers `true`.
pub fn filter<F, T: DeepView>(f: F) -> (t: FilterTransducer<F, T>) where F: Fn(&T) -> bool
    ensures
        t.f == f,
        t.inclusive,
        t.model@ == decision_of::<F, T>(f),
{
    FilterTransducer { f: f, inclusive: true, model: Ghost(decision_of::<F, T>(f)) }
}

/// A stage that lets through the values on which `f` answers `false`.
pub fn remove<F, T: DeepView>(f: F) -> (t: FilterTransducer<F, T>) where F: Fn(&T) -> bool
    ensures
        t.f == f,
        !t.inclusive,
        t.model@ == decision_of::<F, T>(f),
{
    FilterTransducer { f: f, inclusive: false, model: Ghost(decision_of::<F, T>(f)) }
}

/// Gathers values into chunks of `size`; `all` says whether a shorter last chunk is kept.
pub struct PartitionTransducer<T> {
    pub size: usize,
    pub all: bool,
    pub t: PhantomData<T>,
}

/// `partition` or `partition_all` bound to a downstream. It holds the chunk in the making.
pub struct PartitionReducer<RF, T: DeepView> {
    t: PartitionTransducer<T>,
    rf: RF,
    holder: Vec<T>,
    seen: Ghost<Seq<T::V>>,
    halted: Ghost<bool>,
}

impl<RF, T: DeepView> PartitionReducer<RF, T> {
    /// The downstream this stage hands values to.
    pub closed spec fn inner(&self) -> RF {
        self.rf
    }

    /// The transducer this stage was bound from.
    pub closed spec fn config(&self) -> PartitionTransducer<T> {
        self.t
    }

    /// The values gathered for the chunk in the making, in order.
    pub closed spec fn held(&self) -> Seq<T::V> {
        views(self.holder@)
    }
}

impl<T: DeepView, RI: Reducing<Input = Vec<T>>> Transducer<RI> for PartitionTransducer<T> {
    type RO = PartitionReducer<RI, T>;

    open spec fn wf(&self) -> bool {
        true
    }

    open spec fn apply(&self, input: Seq<T::V>, closing: bool) -> Seq<Seq<T::V>> {
        chunked(input, self.size as nat, self.all && closing)
    }

    open spec fn stops(
        &self,
        input: Seq<T::V>,
        downstream: spec_fn(Seq<Seq<T::V>>) -> bool,
    ) -> bool {
        downstream(whole_chunks(input, self.size as nat))
    }

    fn new(self, reducing_fn: RI) -> (ro: Self::RO)
        ensures
            ro.inner() == reducing_fn,
            ro.config() == self,
            ro.held() == Seq::<T::V>::empty(),
    {
        let ro = PartitionReducer {
            t: self,
            rf: reducing_fn,
            holder: Vec::new(),
            seen: Ghost(Seq::empty()),
            halted: Ghost(false),
        };
        proof {
            reducing_fn.lemma_stops();
            let none = Seq::<T::V>::empty();
            if ro.t.size > 0 {
                assert(0int / (ro.t.size as int) == 0);
                assert(0int % (ro.t.size as int) == 0);
            }
            assert(whole_chunks(none, ro.t.size as nat) =~= Seq::<Seq<T::V>>::empty());
            assert(leftover(none, ro.t.size as nat) =~= none);
        }
        ro
    }
}

impl<R: Reducing<Input = Vec<T>>, T: DeepView> Reducing for PartitionReducer<R, T> {
    type Input = T;

    type Item = R::Item;

    type Error = R::Error;

    closed spec fn wf(&self) -> bool {
        let n = self.t.size as nat;
        &&& self.rf.wf()
        &&& self.rf.seen() =~= chunked(self.seen@, n, self.t.all && self.rf.completed())
        &&& !self.rf.completed() ==> views(self.holder@) =~= leftover(self.seen@, n)
        &&& self.halted@ ==> self.rf.halted() && n > 0 && leftover(self.seen@, n).len() == 0
        &&& self.rf.halted() && !self.rf.completed() ==> self.halted@
        &&& self.rf.failure() is Some && !self.rf.completed() ==> leftover(self.seen@, n).len() == 0
        &&& self.rf.failure() is None ==> (self.halted@ <==> self.rf.stops(
            whole_chunks(self.seen@, n),
        ))
    }

    closed spec fn seen(&self) -> Seq<T::V> {
        self.seen@
    }

    open spec fn emitted(&self) -> Seq<<R::Item as DeepView>::V> {
        self.inner().emitted()
    }

    open spec fn drained(&self) -> nat {
        self.inner().drained()
    }

    closed spec fn halted(&self) -> bool {
        self.halted@
    }

    open spec fn failure(&self) -> Option<R::Error> {
        self.inner().failure()
    }

    open spec fn completed(&self) -> bool {
        self.inner().completed()
    }

    open spec fn initialized(&self) -> bool {
        self.inner().initialized()
    }

    open spec fn collecting(&self) -> bool {
        self.inner().collecting()
    }

    closed spec fn denote(&self, input: Seq<T::V>, closing: bool) -> Seq<
        <R::Item as DeepView>::V,
    > {
        self.rf.denote(chunked(input, self.t.size as nat, self.t.all && closing), closing)
    }

    closed spec fn stops(&self, input: Seq<T::V>) -> bool {
        self.rf.stops(whole_chunks(input, self.t.size as nat))
    }

    proof fn lemma_stops(&self) {
        self.rf.lemma_stops();
    }

    proof fn lemma_emitted(&self) {
        self.rf.lemma_emitted();
    }

    proof fn lemma_halted(&self, more: Seq<T::V>, closing: bool) {
        if self.halted@ {
            let n = self.t.size as nat;
            let keep = self.t.all && closing;
            let rest = chunked(more, n, keep);
            lemma_chunks_add(self.seen@, more, n);
            self.rf.lemma_halted(rest, closing);
            assert(chunked(self.seen@ + more, n, keep) =~= self.rf.seen() + rest);
            assert(chunked(self.seen@, n, keep) =~= self.rf.seen());
        }
    }

    /// Passes the announcement of a run downstream, and changes nothing of its own.
    fn init(&mut self)
        ensures
            final(self).config() == old(self).config(),
            final(self).inner().initialized(),
            final(self).inner().seen() == old(self).inner().seen(),
            final(self).held() == old(self).held(),
    {
        proof {
            if self.t.size > 0 {
                assert(0int / (self.t.size as int) == 0);
            }
        }
        self.rf.init();
    }

    /// Adds the value to the chunk in the making and hands the chunk downstream once it
    /// is full.
    fn step(&mut self, value: T) -> (r: Result<StepResult, R::Error>)
        ensures
            final(self).config() == old(self).config(),
            ({
                let chunk = old(self).held().push(value.deep_view());
                if chunk.len() == old(self).config().size {
                    &&& final(self).held() == Seq::<T::V>::empty()
                    &&& final(self).inner().seen() == old(self).inner().seen().push(chunk)
                } else {
                    &&& final(self).held() == chunk
                    &&& final(self).inner() == old(self).inner()
                    &&& r == Ok::<StepResult, R::Error>(StepResult::Continue)
                }
            }),
            final(self).halted() == final(self).inner().halted(),
    {
        let ghost v = value.deep_view();
        let ghost n = self.t.size as nat;
        proof {
            lemma_chunks_push(self.seen@, v, n);
            self.seen@ = self.seen@.push(v);
        }
        self.holder.push(value);
        assert(views(self.holder@) =~= views(old(self).holder@).push(v));
        if self.holder.len() == self.t.size {
            let mut chunk = Vec::new();
            std::mem::swap(&mut chunk, &mut self.holder);
            assert(chunk.deep_view() =~= views(chunk@));
            assert(views(self.holder@) =~= Seq::<T::V>::empty());
            let r = self.rf.step(chunk);
            proof {
                self.halted@ = r == Ok::<StepResult, R::Error>(StepResult::Stop);
                if r is Ok {
                    self.rf.lemma_stops();
                    assert(self.rf.seen() =~= whole_chunks(self.seen@, n));
                }
            }
            r
        } else {
            Ok(StepResult::Continue)
        }
    }

    /// Hands a chunk in the making downstream if shorter chunks are kept, drops it
    /// otherwise, and passes completion downstream.
    fn complete(&mut self) -> (r: Result<(), R::Error>)
        ensures
            final(self).config() == old(self).config(),
            final(self).inner().seen() == if old(self).config().all && old(self).held().len() > 0 {
                old(self).inner().seen().push(old(self).held())
            } else {
                old(self).inner().seen()
            },
            final(self).inner().completed(),
            old(self).config().all ==> final(self).held().len() == 0,
            !old(self).config().all ==> final(self).held() == old(self).held(),
    {
        if self.t.all && self.holder.len() > 0 {
            let mut chunk = Vec::new();
            std::mem::swap(&mut chunk, &mut self.holder);
            assert(chunk.deep_view() =~= views(chunk@));
            let flushed = self.rf.step(chunk);
            let closed = self.rf.complete();
            match flushed {
                Ok(_) => closed,
                Err(e) => Err(e),
            }
        } else {
            self.rf.complete()
        }
    }

    fn drain(&mut self) -> (out: Vec<R::Item>) {
        self.rf.drain()
    }
}

/// A stage that emits each full chunk of `num` values; values left over at the end are dropped.
pub fn partition<T>(num: usize) -> (t: PartitionTransducer<T>)
    ensures
        t.size == num,
        !t.all,
{
    PartitionTransducer { size: num, all: false, t: PhantomData }
}

/// A stage that emits each full chunk of `num` values and, at completion, the values left
/// over as a last, shorter chunk.
pub fn partition_all<T>(num: usize) -> (t: PartitionTransducer<T>)
    ensures
        t.size == num,
        t.all,
{
    PartitionTransducer { size: num, all: true, t: PhantomData }
}

/// Lets the first values through, as many as the number says, and then stops the chain.
pub struct TakeTransducer(pub usize);

/// `take` bound to a downstream. It counts the values it has let through.
pub struct TakeReducer<RF: Reducing> {
    rf: RF,
    taken: usize,
    t: TakeTransducer,
    seen: Ghost<Seq<<RF::Input as DeepView>::V>>,
    halted: Ghost<bool>,
}

impl<RI: Reducing> Transducer<RI> for TakeTransducer {
    type RO = TakeReducer<RI>;

    open spec fn wf(&self) -> bool {
        true
    }

    open spec fn apply(
        &self,
        input: Seq<<RI::Input as DeepView>::V>,
        closing: bool,
    ) -> Seq<<RI::Input as DeepView>::V> {
        first_n(input, self.0 as nat)
    }

    open spec fn stops(
        &self,
        input: Seq<<RI::Input as DeepView>::V>,
        downstream: spec_fn(Seq<<RI::Input as DeepView>::V>) -> bool,
    ) -> bool {
        (input.len() > 0 && input.len() >= self.0) || downstream(first_n(input, self.0 as nat))
    }

    fn new(self, reducing_fn: RI) -> (ro: Self::RO)
        ensures
            ro.inner() == reducing_fn,
            ro.config() == self,
    {
        TakeReducer {
            rf: reducing_fn,
            taken: 0,
            t: self,
            seen: Ghost(Seq::empty()),
            halted: Ghost(false),
        }
    }
}

impl<RF: Reducing> TakeReducer<RF> {
    /// The downstream this stage hands values to.
    pub closed spec fn inner(&self) -> RF {
        self.rf
    }

    /// The transducer this stage was bound from.
    pub closed spec fn config(&self) -> TakeTransducer {
        self.t
    }
}

impl<R: Reducing> Reducing for TakeReducer<R> {
    type Input = R::Input;

    type Item = R::Item;

    type Error = R::Error;

    closed spec fn wf(&self) -> bool {
        &&& self.rf.wf()
        &&& self.rf.seen() =~= first_n(self.seen@, self.t.0 as nat)
        &&& self.taken == first_n(self.seen@, self.t.0 as nat).len()
        &&& self.rf.halted() ==> self.halted@
        &&& self.halted@ ==> self.seen@.len() > 0 && (self.rf.halted() || self.seen@.len()
            >= self.t.0)
        &&& self.rf.failure() is None && self.seen@.len() > 0 && self.seen@.len() >= self.t.0
            ==> self.halted@
    }

    closed spec fn seen(&self) -> Seq<<R::Input as DeepView>::V> {
        self.seen@
    }

    open spec fn emitted(&self) -> Seq<<R::Item as DeepView>::V> {
        self.inner().emitted()
    }

    open spec fn drained(&self) -> nat {
        self.inner().drained()
    }

    closed spec fn halted(&self) -> bool {
        self.halted@
    }

    open spec fn failure(&self) -> Option<R::Error> {
        self.inner().failure()
    }

    open spec fn completed(&self) -> bool {
        self.inner().completed()
    }

    open spec fn initialized(&self) -> bool {
        self.inner().initialized()
    }

    open spec fn collecting(&self) -> bool {
        self.inner().collecting()
    }

    closed spec fn denote(
        &self,
        input: Seq<<R::Input as DeepView>::V>,
        closing: bool,
    ) -> Seq<<R::Item as DeepView>::V> {
        self.rf.denote(first_n(input, self.t.0 as nat), closing)
    }

    closed spec fn stops(&self, input: Seq<<R::Input as DeepView>::V>) -> bool {
        (input.len() > 0 && input.len() >= self.t.0) || self.rf.stops(
            first_n(input, self.t.0 as nat),
        )
    }

    proof fn lemma_stops(&self) {
        self.rf.lemma_stops();
    }

    proof fn lemma_emitted(&self) {
        self.rf.lemma_emitted();
    }

    proof fn lemma_halted(&self, more: Seq<<R::Input as DeepView>::V>, closing: bool) {
        if self.halted@ {
            let n = self.t.0 as nat;
            let seen = self.seen@;
            if seen.len() >= n {
                assert(first_n(seen + more, n) =~= first_n(seen, n));
            } else {
                let rest = first_n(more, (n - seen.len()) as nat);
                self.rf.lemma_halted(rest, closing);
                assert(first_n(seen + more, n) =~= self.rf.seen() + rest);
            }
        }
    }

    /// Passes the announcement of a run downstream, and changes nothing of its own.
    fn init(&mut self)
        ensures
            final(self).config() == old(self).config(),
            final(self).inner().initialized(),
            final(self).inner().seen() == old(self).inner().seen(),
    {
        self.rf.init();
    }

    /// Hands the value downstream unless the limit has been reached, and answers `Stop`
    /// with the last value it lets through.
    fn step(&mut self, value: R::Input) -> (r: Result<StepResult, R::Error>)
        ensures
            final(self).config() == old(self).config(),
            final(self).inner().seen() == if old(self).seen().len() < old(self).config().0 {
                old(self).inner().seen().push(value.deep_view())
            } else {
                old(self).inner().seen()
            },
            r is Ok ==> (final(self).halted() <==> final(self).inner().halted()
                || final(self).seen().len() >= old(self).config().0),
            old(self).seen().len() >= old(self).config().0 ==> r == Ok::<StepResult, R::Error>(
                StepResult::Stop,
            ) && final(self).inner() == old(self).inner(),
    {
        let ghost v = value.deep_view();
        let ghost n = self.t.0 as nat;
        proof {
            self.seen@ = self.seen@.push(v);
            assert(old(self).seen@.len() < n ==> first_n(self.seen@, n) =~= first_n(
                old(self).seen@,
                n,
            ).push(v));
            assert(old(self).seen@.len() >= n ==> first_n(self.seen@, n) =~= first_n(
                old(self).seen@,
                n,
            ));
        }
        if self.taken < self.t.0 {
            self.taken += 1;
            match self.rf.step(value) {
                Ok(StepResult::Continue) => if self.taken < self.t.0 {
                    Ok(StepResult::Continue)
                } else {
                    proof {
                        self.halted@ = true;
                    }
                    Ok(StepResult::Stop)
                },
                Ok(StepResult::Stop) => {
                    proof {
                        self.halted@ = true;
                    }
                    Ok(StepResult::Stop)
                },
                Err(e) => Err(e),
            }
        } else {
            proof {
                self.halted@ = true;
            }
            Ok(StepResult::Stop)
        }
    }

    /// Passes completion downstream; the stage itself holds nothing back.
    fn complete(&mut self) -> (r: Result<(), R::Error>)
        ensures
            final(self).config() == old(self).config(),
            final(self).inner().seen() == old(self).inner().seen(),
            final(self).inner().completed(),
    {
        self.rf.complete()
    }

    fn drain(&mut self) -> (out: Vec<R::Item>) {
        self.rf.drain()
    }
}

/// A stage that lets the first `num` values through; it answers `Stop` with the last of them.
pub fn take(num: usize) -> (t: TakeTransducer)
    ensures
        t.0 == num,
{
    TakeTransducer(num)
}

/// Lets values through until one fails the predicate, and stops the chain at that one.
/// `model` is the predicate on views that `pred` computes.
#[verifier::reject_recursive_types(T)]
pub struct TakeWhileTransducer<F, T: DeepView> {
    pub pred: F,
    pub model: Ghost<spec_fn(T::V) -> bool>,
}

/// `take_while` bound to a downstream.
#[verifier::reject_recursive_types(T)]
pub struct TakeWhileReducer<RF, F, T: DeepView> {
    rf: RF,
    t: TakeWhileTransducer<F, T>,
    seen: Ghost<Seq<T::V>>,
    halted: Ghost<bool>,
}

impl<RF, F, T: DeepView> TakeWhileReducer<RF, F, T> {
    /// The downstream this stage hands values to.
    pub closed spec fn inner(&self) -> RF {
        self.rf
    }

    /// The transducer this stage was bound from.
    pub closed spec fn config(&self) -> TakeWhileTransducer<F, T> {
        self.t
    }
}

impl<F, T, RI> Transducer<RI> for TakeWhileTransducer<F, T> where
    F: Fn(&T) -> bool,
    T: DeepView,
    RI: Reducing<Input = T>,
 {
    type RO = TakeWhileReducer<RI, F, T>;

    open spec fn wf(&self) -> bool {
        decides(self.pred, self.model@)
    }

    open spec fn apply(&self, input: Seq<T::V>, closing: bool) -> Seq<T::V> {
        leading(input, self.model@)
    }

    open spec fn stops(&self, input: Seq<T::V>, downstream: spec_fn(Seq<T::V>) -> bool) -> bool {
        prefix_len(input, self.model@) < input.len() || downstream(leading(input, self.model@))
    }

    fn new(self, reducing_fn: RI) -> (ro: Self::RO)
        ensures
            ro.inner() == reducing_fn,
            ro.config() == self,
    {
        TakeWhileReducer {
            rf: reducing_fn,
            t: self,
            seen: Ghost(Seq::empty()),
            halted: Ghost(false),
        }
    }
}

impl<R, F, T> Reducing for TakeWhileReducer<R, F, T> where
    R: Reducing<Input = T>,
    F: Fn(&T) -> bool,
    T: DeepView,
 {
    type Input = T;

    type Item = R::Item;

    type Error = R::Error;

    closed spec fn wf(&self) -> bool {
        &&& decides(self.t.pred, self.t.model@)
        &&& self.rf.wf()
        &&& self.rf.seen() =~= leading(self.seen@, self.t.model@)
        &&& self.rf.halted() ==> self.halted@
        &&& self.halted@ ==> self.rf.halted() || prefix_len(self.seen@, self.t.model@)
            < self.seen@.len()
        &&& !self.halted@ ==> prefix_len(self.seen@, self.t.model@) == self.seen@.len()
    }

    closed spec fn seen(&self) -> Seq<T::V> {
        self.seen@
    }

    open spec fn emitted(&self) -> Seq<<R::Item as DeepView>::V> {
        self.inner().emitted()
    }

    open spec fn drained(&self) -> nat {
        self.inner().drained()
    }

    closed spec fn halted(&self) -> bool {
        self.halted@
    }

    open spec fn failure(&self) -> Option<R::Error> {
        self.inner().failure()
    }

    open spec fn completed(&self) -> bool {
        self.inner().completed()
    }

    open spec fn initialized(&self) -> bool {
        self.inner().initialized()
    }

    open spec fn collecting(&self) -> bool {
        self.inner().collecting()
    }

    closed spec fn denote(&self, input: Seq<T::V>, closing: bool) -> Seq<
        <R::Item as DeepView>::V,
    > {
        self.rf.denote(leading(input, self.t.model@), closing)
    }

    closed spec fn stops(&self, input: Seq<T::V>) -> bool {
        prefix_len(input, self.t.model@) < input.len() || self.rf.stops(
            leading(input, self.t.model@),
        )
    }

    proof fn lemma_stops(&self) {
        self.rf.lemma_stops();
    }

    proof fn lemma_emitted(&self) {
        self.rf.lemma_emitted();
    }

    proof fn lemma_halted(&self, more: Seq<T::V>, closing: bool) {
        if self.halted@ {
            let p = self.t.model@;
            let seen = self.seen@;
            lemma_prefix_len(seen, p);
            lemma_prefix_len(more, p);
            lemma_prefix_len_add(seen, more, p);
            if prefix_len(seen, p) < seen.len() {
                assert(leading(seen + more, p) =~= leading(seen, p));
            } else {
                let rest = leading(more, p);
                self.rf.lemma_halted(rest, closing);
                assert(leading(seen + more, p) =~= self.rf.seen() + rest);
            }
        }
    }

    /// Passes the announcement of a run downstream, and changes nothing of its own.
    fn init(&mut self)
        ensures
            final(self).config() == old(self).config(),
            final(self).inner().initialized(),
            final(self).inner().seen() == old(self).inner().seen(),
    {
        self.rf.init();
    }

    /// Hands the value downstream if the predicate holds of it; answers `Stop` otherwise,
    /// and the value goes no further.
    fn step(&mut self, value: T) -> (r: Result<StepResult, R::Error>)
        ensures
            final(self).config() == old(self).config(),
            final(self).inner().seen() == if (old(self).config().model@)(value.deep_view()) {
                old(self).inner().seen().push(value.deep_view())
            } else {
                old(self).inner().seen()
            },
            r is Ok ==> (final(self).halted() <==> final(self).inner().halted()
                || !(old(self).config().model@)(value.deep_view())),
            !(old(self).config().model@)(value.deep_view()) ==> r == Ok::<StepResult, R::Error>(
                StepResult::Stop,
            ) && final(self).inner() == old(self).inner(),
    {
        let ghost v = value.deep_view();
        let ghost p = self.t.model@;
        proof {
            lemma_prefix_len(self.seen@, p);
            lemma_prefix_len_one(v, p);
            lemma_prefix_len_add(self.seen@, seq![v], p);
            assert(self.seen@.push(v) =~= self.seen@ + seq![v]);
            self.seen@ = self.seen@.push(v);
        }
        if (self.t.pred)(&value) {
            assert(leading(self.seen@, p) =~= leading(old(self).seen@, p).push(v));
            let r = self.rf.step(value);
            proof {
                self.halted@ = r == Ok::<StepResult, R::Error>(StepResult::Stop);
            }
            r
        } else {
            assert(leading(self.seen@, p) =~= leading(old(self).seen@, p));
            proof {
                self.halted@ = true;
            }
            Ok(StepResult::Stop)
        }
    }

    /// Passes completion downstream; the stage itself holds nothing back.
    fn complete(&mut self) -> (r: Result<(), R::Error>)
        ensures
            final(self).config() == old(self).config(),
            final(self).inner().seen() == old(self).inner().seen(),
            final(self).inner().completed(),
    {
        self.rf.complete()
    }

    fn drain(&mut self) -> (out: Vec<R::Item>) {
        self.rf.drain()
    }
}

/// A stage that lets values through while `pred` holds; the first value that fails it
/// stops the chain and is not passed on.
pub fn take_while<F, T: DeepView>(pred: F) -> (t: TakeWhileTransducer<F, T>) where F: Fn(&T) -> bool
    ensures
        t.pred == pred,
        t.model@ == decision_of::<F, T>(pred),
{
    TakeWhileTransducer { pred: pred, model: Ghost(decision_of::<F, T>(pred)) }
}

/// Drops the first values, as many as the number says, and lets the rest through.
pub struct DropTransducer(pub usize);

/// `drop` bound to a downstream. It counts the values it has dropped.
pub struct DropReducer<RF: Reducing> {
    rf: RF,
    dropped: usize,
    d: DropTransducer,
    seen: Ghost<Seq<<RF::Input as DeepView>::V>>,
    halted: Ghost<bool>,
}

impl<RF: Reducing> DropReducer<RF> {
    /// The downstream this stage hands values to.
    pub closed spec fn inner(&self) -> RF {
        self.rf
    }

    /// The transducer this stage was bound from.
    pub closed spec fn config(&self) -> DropTransducer {
        self.d
    }
}

impl<RI: Reducing> Transducer<RI> for DropTransducer {
    type RO = DropReducer<RI>;

    open spec fn wf(&self) -> bool {
        true
    }

    open spec fn apply(
        &self,
        input: Seq<<RI::Input as DeepView>::V>,
        closing: bool,
    ) -> Seq<<RI::Input as DeepView>::V> {
        after_n(input, self.0 as nat)
    }

    open spec fn stops(
        &self,
        input: Seq<<RI::Input as DeepView>::V>,
        downstream: spec_fn(Seq<<RI::Input as DeepView>::V>) -> bool,
    ) -> bool {
        downstream(after_n(input, self.0 as nat))
    }

    fn new(self, reducing_fn: RI) -> (ro: Self::RO)
        ensures
            ro.inner() == reducing_fn,
            ro.config() == self,
    {
        DropReducer {
            rf: reducing_fn,
            dropped: 0,
            d: self,
            seen: Ghost(Seq::empty()),
            halted: Ghost(false),
        }
    }
}

impl<R: Reducing> Reducing for DropReducer<R> {
    type Input = R::Input;

    type Item = R::Item;

    type Error = R::Error;

    closed spec fn wf(&self) -> bool {
        &&& self.rf.wf()
        &&& self.rf.seen() =~= after_n(self.seen@, self.d.0 as nat)
        &&& self.dropped == first_n(self.seen@, self.d.0 as nat).len()
        &&& self.halted@ == self.rf.halted()
    }

    closed spec fn seen(&self) -> Seq<<R::Input as DeepView>::V> {
        self.seen@
    }

    open spec fn emitted(&self) -> Seq<<R::Item as DeepView>::V> {
        self.inner().emitted()
    }

    open spec fn drained(&self) -> nat {
        self.inner().drained()
    }

    closed spec fn halted(&self) -> bool {
        self.halted@
    }

    open spec fn failure(&self) -> Option<R::Error> {
        self.inner().failure()
    }

    open spec fn completed(&self) -> bool {
        self.inner().completed()
    }

    open spec fn initialized(&self) -> bool {
        self.inner().initialized()
    }

    open spec fn collecting(&self) -> bool {
        self.inner().collecting()
    }

    closed spec fn denote(
        &self,
        input: Seq<<R::Input as DeepView>::V>,
        closing: bool,
    ) -> Seq<<R::Item as DeepView>::V> {
        self.rf.denote(after_n(input, self.d.0 as nat), closing)
    }

    closed spec fn stops(&self, input: Seq<<R::Input as DeepView>::V>) -> bool {
        self.rf.stops(after_n(input, self.d.0 as nat))
    }

    proof fn lemma_stops(&self) {
        self.rf.lemma_stops();
    }

    proof fn lemma_emitted(&self) {
        self.rf.lemma_emitted();
    }

    proof fn lemma_halted(&self, more: Seq<<R::Input as DeepView>::V>, closing: bool) {
        if self.halted@ {
            let n = self.d.0 as nat;
            let seen = self.seen@;
            let owed = if n <= seen.len() {
                0nat
            } else {
                (n - seen.len()) as nat
            };
            let rest = after_n(more, owed);
            self.rf.lemma_halted(rest, closing);
            assert(after_n(seen + more, n) =~= self.rf.seen() + rest);
        }
    }

    /// Passes the announcement of a run downstream, and changes nothing of its own.
    fn init(&mut self)
        ensures
            final(self).config() == old(self).config(),
            final(self).inner().initialized(),
            final(self).inner().seen() == old(self).inner().seen(),
    {
        self.rf.init();
    }

    /// Hands the value downstream once the first values have been dropped.
    fn step(&mut self, value: R::Input) -> (r: Result<StepResult, R::Error>)
        ensures
            final(self).config() == old(self).config(),
            final(self).inner().seen() == if old(self).seen().len() < old(self).config().0 {
                old(self).inner().seen()
            } else {
                old(self).inner().seen().push(value.deep_view())
            },
            final(self).halted() == final(self).inner().halted(),
            old(self).seen().len() < old(self).config().0 ==> r == Ok::<StepResult, R::Error>(
                StepResult::Continue,
            ) && final(self).inner() == old(self).inner(),
    {
        let ghost v = value.deep_view();
        let ghost n = self.d.0 as nat;
        proof {
            self.seen@ = self.seen@.push(v);
        }
        let r = if self.dropped < self.d.0 {
            self.dropped += 1;
            assert(after_n(self.seen@, n) =~= after_n(old(self).seen@, n));
            Ok(StepResult::Continue)
        } else {
            assert(after_n(self.seen@, n) =~= after_n(old(self).seen@, n).push(v));
            self.rf.step(value)
        };
        proof {
            self.halted@ = r == Ok::<StepResult, R::Error>(StepResult::Stop);
        }
        r
    }

    /// Passes completion downstream; the stage itself holds nothing back.
    fn complete(&mut self) -> (r: Result<(), R::Error>)
        ensures
            final(self).config() == old(self).config(),
            final(self).inner().seen() == old(self).inner().seen(),
            final(self).inner().completed(),
    {
        self.rf.complete()
    }

    fn drain(&mut self) -> (out: Vec<R::Item>) {
        self.rf.drain()
    }
}

/// A stage that drops the first `size` values.
pub fn drop(size: usize) -> (t: DropTransducer)
    ensures
        t.0 == size,
{
    DropTransducer(size)
}

/// Drops values until one fails the predicate; lets that one and all later ones through.
/// `model` is the predicate on views that `pred` computes.
#[verifier::reject_recursive_types(T)]
pub struct DropWhileTransducer<F, T: DeepView> {
    pub pred: F,
    pub model: Ghost<spec_fn(T::V) -> bool>,
}

/// `drop_while` bound to a downstream. It remembers whether values pass yet.
#[verifier::reject_recursive_types(T)]
pub struct DropWhileReducer<RF, F, T: DeepView> {
    rf: RF,
    t: DropWhileTransducer<F, T>,
    done: bool,
    seen: Ghost<Seq<T::V>>,
    halted: Ghost<bool>,
}

impl<F, T, RI> Transducer<RI> for DropWhileTransducer<F, T> where
    F: Fn(&T) -> bool,
    T: DeepView,
    RI: Reducing<Input = T>,
 {
    type RO = DropWhileReducer<RI, F, T>;

    open spec fn wf(&self) -> bool {
        decides(self.pred, self.model@)
    }

    open spec fn apply(&self, input: Seq<T::V>, closing: bool) -> Seq<T::V> {
        trailing(input, self.model@)
    }

    open spec fn stops(&self, input: Seq<T::V>, downstream: spec_fn(Seq<T::V>) -> bool) -> bool {
        downstream(trailing(input, self.model@))
    }

    fn new(self, reducing_fn: RI) -> (ro: Self::RO)
        ensures
            ro.inner() == reducing_fn,
            ro.config() == self,
            !ro.opened(),
    {
        DropWhileReducer {
            rf: reducing_fn,
            t: self,
            done: false,
            seen: Ghost(Seq::empty()),
            halted: Ghost(false),
        }
    }
}

impl<RF, F, T: DeepView> DropWhileReducer<RF, F, T> {
    /// The downstream this stage hands values to.
    pub closed spec fn inner(&self) -> RF {
        self.rf
    }

    /// The transducer this stage was bound from.
    pub closed spec fn config(&self) -> DropWhileTransducer<F, T> {
        self.t
    }

    /// A value has failed the predicate, so values pass from now on.
    pub closed spec fn opened(&self) -> bool {
        self.done
    }
}

impl<R, F, T> Reducing for DropWhileReducer<R, F, T> where
    R: Reducing<Input = T>,
    F: Fn(&T) -> bool,
    T: DeepView,
 {
    type Input = T;

    type Item = R::Item;

    type Error = R::Error;

    closed spec fn wf(&self) -> bool {
        &&& decides(self.t.pred, self.t.model@)
        &&& self.rf.wf()
        &&& self.rf.seen() =~= trailing(self.seen@, self.t.model@)
        &&& self.done <==> prefix_len(self.seen@, self.t.model@) < self.seen@.len()
        &&& self.halted@ == self.rf.halted()
    }

    closed spec fn seen(&self) -> Seq<T::V> {
        self.seen@
    }

    open spec fn emitted(&self) -> Seq<<R::Item as DeepView>::V> {
        self.inner().emitted()
    }

    open spec fn drained(&self) -> nat {
        self.inner().drained()
    }

    closed spec fn halted(&self) -> bool {
        self.halted@
    }

    open spec fn failure(&self) -> Option<R::Error> {
        self.inner().failure()
    }

    open spec fn completed(&self) -> bool {
        self.inner().completed()
    }

    open spec fn initialized(&self) -> bool {
        self.inner().initialized()
    }

    open spec fn collecting(&self) -> bool {
        self.inner().collecting()
    }

    closed spec fn denote(&self, input: Seq<T::V>, closing: bool) -> Seq<
        <R::Item as DeepView>::V,
    > {
        self.rf.denote(trailing(input, self.t.model@), closing)
    }

    closed spec fn stops(&self, input: Seq<T::V>) -> bool {
        self.rf.stops(trailing(input, self.t.model@))
    }

    proof fn lemma_stops(&self) {
        self.rf.lemma_stops();
    }

    proof fn lemma_emitted(&self) {
        self.rf.lemma_emitted();
    }

    proof fn lemma_halted(&self, more: Seq<T::V>, closing: bool) {
        if self.halted@ {
            let p = self.t.model@;
            let seen = self.seen@;
            lemma_prefix_len(seen, p);
            lemma_prefix_len(more, p);
            lemma_prefix_len_add(seen, more, p);
            let rest = if self.done {
                more
            } else {
                trailing(more, p)
            };
            self.rf.lemma_halted(rest, closing);
            assert(trailing(seen + more, p) =~= self.rf.seen() + rest);
        }
    }

    /// Passes the announcement of a run downstream, and changes nothing of its own.
    fn init(&mut self)
        ensures
            final(self).config() == old(self).config(),
            final(self).inner().initialized(),
            final(self).inner().seen() == old(self).inner().seen(),
            final(self).opened() == old(self).opened(),
    {
        self.rf.init();
    }

    /// Hands the value downstream if values pass already or if it fails the predicate.
    /// Once values pass, they pass for good.
    fn step(&mut self, value: T) -> (r: Result<StepResult, R::Error>)
        ensures
            final(self).config() == old(self).config(),
            old(self).opened() ==> final(self).opened(),
            final(self).opened() <==> old(self).opened() || !(old(self).config().model@)(
                value.deep_view(),
            ),
            final(self).inner().seen() == if final(self).opened() {
                old(self).inner().seen().push(value.deep_view())
            } else {
                old(self).inner().seen()
            },
            final(self).halted() == final(self).inner().halted(),
            !final(self).opened() ==> r == Ok::<StepResult, R::Error>(
                StepResult::Continue,
            ) && final(self).inner() == old(self).inner(),
    {
        let ghost v = value.deep_view();
        let ghost p = self.t.model@;
        proof {
            lemma_prefix_len(self.seen@, p);
            lemma_prefix_len_one(v, p);
            lemma_prefix_len_add(self.seen@, seq![v], p);
            assert(self.seen@.push(v) =~= self.seen@ + seq![v]);
            self.seen@ = self.seen@.push(v);
        }
        let r = if self.done {
            assert(trailing(self.seen@, p) =~= trailing(old(self).seen@, p).push(v));
            self.rf.step(value)
        } else if !(self.t.pred)(&value) {
            self.done = true;
            assert(trailing(self.seen@, p) =~= trailing(old(self).seen@, p).push(v));
            self.rf.step(value)
        } else {
            assert(trailing(self.seen@, p) =~= trailing(old(self).seen@, p));
            Ok(StepResult::Continue)
        };
        proof {
            self.halted@ = r == Ok::<StepResult, R::Error>(StepResult::Stop);
        }
        r
    }

    /// Passes completion downstream; the stage itself holds nothing back.
    fn complete(&mut self) -> (r: Result<(), R::Error>)
        ensures
            final(self).config() == old(self).config(),
            final(self).opened() == old(self).opened(),
            final(self).inner().seen() == old(self).inner().seen(),
            final(self).inner().completed(),
    {
        self.rf.complete()
    }

    fn drain(&mut self) -> (out: Vec<R::Item>) {
        self.rf.drain()
    }
}

/// A stage that drops values while `pred` holds, then lets everything through.
pub fn drop_while<F, T: DeepView>(pred: F) -> (t: DropWhileTransducer<F, T>) where F: Fn(&T) -> bool
    ensures
        t.pred == pred,
        t.model@ == decision_of::<F, T>(pred),
{
    DropWhileTransducer { pred: pred, model: Ghost(decision_of::<F, T>(pred)) }
}

/// What `table` turns a value seen as `a` into: the entry of the key seen as `a`, or `a`.
pub open spec fn swapped<T: DeepView>(table: Map<T, T>, a: T::V) -> T::V {
    if exists|k: T| #[trigger] table.contains_key(k) && k.deep_view() == a {
        table[choose|k: T| #[trigger] table.contains_key(k) && k.deep_view() == a].deep_view()
    } else {
        a
    }
}

/// Values of `T` are told apart by their views, hash as keys should, and clone to a value
/// with the same view.
pub open spec fn plain_keys<T: DeepView + Clone>() -> bool {
    &&& obeys_key_model::<T>()
    &&& forall|a: T, b: T|
        #![trigger a.deep_view(), b.deep_view()]
        a.deep_view() == b.deep_view() ==> a == b
    &&& forall|a: T, b: T| #[trigger]
        call_ensures(T::clone, (&a,), b) ==> b.deep_view() == a.deep_view()
}

/// Replaces the values that are keys of a table by their entries.
pub struct ReplaceTransducer<T>(pub HashMap<T, T>);

/// `replace` bound to a downstream.
pub struct ReplaceReducer<RF, T: DeepView> {
    rf: RF,
    t: ReplaceTransducer<T>,
    seen: Ghost<Seq<T::V>>,
    halted: Ghost<bool>,
}

impl<RF, T: DeepView> ReplaceReducer<RF, T> {
    /// The downstream this stage hands values to.
    pub closed spec fn inner(&self) -> RF {
        self.rf
    }

    /// The transducer this stage was bound from.
    pub closed spec fn config(&self) -> ReplaceTransducer<T> {
        self.t
    }
}

impl<T, RI> Transducer<RI> for ReplaceTransducer<T> where
    T: DeepView + Eq + Hash + Clone,
    RI: Reducing<Input = T>,
 {
    type RO = ReplaceReducer<RI, T>;

    open spec fn wf(&self) -> bool {
        plain_keys::<T>()
    }

    open spec fn apply(&self, input: Seq<T::V>, closing: bool) -> Seq<T::V> {
        input.map_values(|a: T::V| swapped(self.0@, a))
    }

    open spec fn stops(&self, input: Seq<T::V>, downstream: spec_fn(Seq<T::V>) -> bool) -> bool {
        downstream(input.map_values(|a: T::V| swapped(self.0@, a)))
    }

    fn new(self, reducing_fn: RI) -> (ro: Self::RO)
        ensures
            ro.inner() == reducing_fn,
            ro.config() == self,
    {
        ReplaceReducer { rf: reducing_fn, t: self, seen: Ghost(Seq::empty()), halted: Ghost(false) }
    }
}

impl<R, T> Reducing for ReplaceReducer<R, T> where
    R: Reducing<Input = T>,
    T: DeepView + Eq + Hash + Clone,
 {
    type Input = T;

    type Item = R::Item;

    type Error = R::Error;

    closed spec fn wf(&self) -> bool {
        &&& plain_keys::<T>()
        &&& self.rf.wf()
        &&& self.rf.seen() =~= self.seen@.map_values(|a: T::V| swapped(self.t.0@, a))
        &&& self.halted@ == self.rf.halted()
    }

    closed spec fn seen(&self) -> Seq<T::V> {
        self.seen@
    }

    open spec fn emitted(&self) -> Seq<<R::Item as DeepView>::V> {
        self.inner().emitted()
    }

    open spec fn drained(&self) -> nat {
        self.inner().drained()
    }

    closed spec fn halted(&self) -> bool {
        self.halted@
    }

    open spec fn failure(&self) -> Option<R::Error> {
        self.inner().failure()
    }

    open spec fn completed(&self) -> bool {
        self.inner().completed()
    }

    open spec fn initialized(&self) -> bool {
        self.inner().initialized()
    }

    open spec fn collecting(&self) -> bool {
        self.inner().collecting()
    }

    closed spec fn denote(&self, input: Seq<T::V>, closing: bool) -> Seq<
        <R::Item as DeepView>::V,
    > {
        self.rf.denote(input.map_values(|a: T::V| swapped(self.t.0@, a)), closing)
    }

    closed spec fn stops(&self, input: Seq<T::V>) -> bool {
        self.rf.stops(input.map_values(|a: T::V| swapped(self.t.0@, a)))
    }

    proof fn lemma_stops(&self) {
        self.rf.lemma_stops();
    }

    proof fn lemma_emitted(&self) {
        self.rf.lemma_emitted();
    }

    proof fn lemma_halted(&self, more: Seq<T::V>, closing: bool) {
        if self.halted@ {
            let g = |a: T::V| swapped(self.t.0@, a);
            self.rf.lemma_halted(more.map_values(g), closing);
            assert((self.seen@ + more).map_values(g) =~= self.seen@.map_values(g)
                + more.map_values(g));
        }
    }

    /// Passes the announcement of a run downstream, and changes nothing of its own.
    fn init(&mut self)
        ensures
            final(self).config() == old(self).config(),
            final(self).inner().initialized(),
            final(self).inner().seen() == old(self).inner().seen(),
    {
        self.rf.init();
    }

    /// Hands downstream the table's entry for the value, or the value itself if the
    /// table has none.
    fn step(&mut self, value: T) -> (r: Result<StepResult, R::Error>)
        ensures
            final(self).config() == old(self).config(),
            final(self).inner().seen() == old(self).inner().seen().push(
                swapped(old(self).config().0@, value.deep_view()),
            ),
            final(self).halted() == final(self).inner().halted(),
    {
        broadcast use vstd::std_specs::hash::group_hash_axioms;

        let ghost key = value;
        let ghost table = self.t.0@;
        let v: T = match self.t.0.get(&value) {
            Some(val) => {
                assert(table.contains_key(key) && table[key] == *val);
                val.clone()
            },
            None => {
                assert(!table.contains_key(key));
                value
            },
        };
        let ghost g = |a: T::V| swapped(table, a);
        assert(v.deep_view() == g(key.deep_view()));
        let r = self.rf.step(v);
        proof {
            self.seen@ = self.seen@.push(key.deep_view());
            self.halted@ = r == Ok::<StepResult, R::Error>(StepResult::Stop);
            assert(self.seen@.map_values(g) =~= old(self).seen@.map_values(g).push(v.deep_view()));
        }
        r
    }

    /// Passes completion downstream; the stage itself holds nothing back.
    fn complete(&mut self) -> (r: Result<(), R::Error>)
        ensures
            final(self).config() == old(self).config(),
            final(self).inner().seen() == old(self).inner().seen(),
            final(self).inner().completed(),
    {
        self.rf.complete()
    }

    fn drain(&mut self) -> (out: Vec<R::Item>) {
        self.rf.drain()
    }
}

/// A stage that replaces every value that is a key of `replacements` by its entry.
pub fn replace<T>(replacements: HashMap<T, T>) -> (t: ReplaceTransducer<T>)
    ensures
        t.0 == replacements,
{
    ReplaceTransducer(replacements)
}

} // verus!
