//! What transducers denote, stated for every downstream they may be bound to.
//!
//! A driver's contract says that it returns what its transducer's `apply` makes of the
//! input. The lemmas here say what `apply` is for the stages that hold a closure and for
//! compositions, whatever the closure and whatever the downstream; calling one at a use
//! site tells Verus what the transducer at hand denotes. The stages without a closure
//! unfold by themselves.
use crate::model::{
    expanded, first_n, leading, leftover, lemma_chunks_cover, trailing, whole_chunks,
};
use crate::transducers::{
    can_yield, decides, decision_of, image_of, DropWhileTransducer, FilterTransducer, MapReducer,
    MapTransducer, MapcatTransducer, PartitionTransducer, TakeTransducer, TakeWhileTransducer,
};
use crate::applications::vec::VecReducer;
use crate::{ComposedTransducer, Reducing, Transducer};
use vstd::prelude::*;

verus! {

/// A function whose result, by its view, depends on the view of its argument alone
/// computes its image: what `map(f)` and `mapcat(f)` take as the model is then what every
/// call of `f` returns.
pub proof fn law_image<F, I, O>(f: F) where F: Fn(I) -> O, I: DeepView, O: DeepView
    requires
        forall|x: I, y: O, x2: I, y2: O|
            #![trigger f.ensures((x,), y), f.ensures((x2,), y2)]
            f.ensures((x,), y) && f.ensures((x2,), y2) && x.deep_view() == x2.deep_view()
                ==> y.deep_view() == y2.deep_view(),
    ensures
        forall|x: I, y: O| #[trigger]
            f.ensures((x,), y) ==> y.deep_view() == image_of(f)(x.deep_view()),
{
    assert forall|x: I, y: O| #[trigger] f.ensures((x,), y) implies y.deep_view() == image_of(f)(
        x.deep_view(),
    ) by {
        let a = x.deep_view();
        assert(can_yield(f, a, y.deep_view()));
        let b = choose|b: O::V| can_yield(f, a, b);
        let (x2, y2): (I, O) = choose|x2: I, y2: O| #[trigger]
            f.ensures((x2,), y2) && x2.deep_view() == a && y2.deep_view() == b;
        assert(f.ensures((x2,), y2) && f.ensures((x,), y));
    }
}

/// A predicate that accepts every value and whose answer depends on the view of its
/// argument alone decides as its decision says: what `filter(f)`, `remove(f)`,
/// `take_while(f)` and `drop_while(f)` take as the model is then what every call of `f`
/// returns.
pub proof fn law_decision<F, T>(f: F) where F: Fn(&T) -> bool, T: DeepView
    requires
        forall|x: T| #[trigger] f.requires((&x,)),
        forall|x: T, b: bool, x2: T, b2: bool|
            #![trigger f.ensures((&x,), b), f.ensures((&x2,), b2)]
            f.ensures((&x,), b) && f.ensures((&x2,), b2) && x.deep_view() == x2.deep_view() ==> b
                == b2,
    ensures
        decides(f, decision_of::<F, T>(f)),
{
    assert forall|x: T, b: bool| #[trigger] f.ensures((&x,), b) implies b == decision_of::<F, T>(
        f,
    )(x.deep_view()) by {
        if decision_of::<F, T>(f)(x.deep_view()) {
            let x2 = choose|x2: T| #[trigger]
                f.ensures((&x2,), true) && x2.deep_view() == x.deep_view();
            assert(f.ensures((&x2,), true) && f.ensures((&x,), b));
        }
    }
}

/// The functor law. Whatever `map` is bound to, it can be bound once its closure accepts
/// every value and computes the model, and it denotes the model applied to every value,
/// in order. So every driver hands back exactly the input mapped.
pub proof fn law_map<F, I, O, RI>(t: MapTransducer<F, I, O>, input: Seq<I::V>, closing: bool) where
    F: Fn(I) -> O,
    I: DeepView,
    O: DeepView,
    RI: Reducing<Input = O>,

    ensures
        Transducer::<RI>::wf(&t) == t.valid(),
        Transducer::<RI>::apply(&t, input, closing) == input.map_values(t.model@),
        Transducer::<RI>::apply(&t, input, closing).len() == input.len(),
        forall|i: int|
            0 <= i < input.len() ==> (#[trigger] Transducer::<RI>::apply(&t, input, closing)[i])
                == (t.model@)(input[i]),
{
}

/// Mapping the identity changes nothing.
pub proof fn law_map_identity<F, I, RI>(
    t: MapTransducer<F, I, I>,
    input: Seq<I::V>,
    closing: bool,
) where F: Fn(I) -> I, I: DeepView, RI: Reducing<Input = I>
    requires
        forall|a: I::V| #[trigger] (t.model@)(a) == a,
    ensures
        Transducer::<RI>::apply(&t, input, closing) == input,
{
    assert(input.map_values(t.model@) =~= input);
}

/// The composition law. A composed transducer can be bound when both parts can, and it
/// denotes what its part `a` denotes on what its part `b` denotes on the input: the one
/// stage applied to completion, then the other.
pub proof fn law_compose<RI, AT, BT>(
    t: ComposedTransducer<AT, BT>,
    input: Seq<<<BT::RO as Reducing>::Input as DeepView>::V>,
    closing: bool,
) where RI: Reducing, AT: Transducer<RI>, BT: Transducer<AT::RO>
    ensures
        Transducer::<RI>::wf(&t) == (t.a.wf() && t.b.wf()),
        Transducer::<RI>::apply(&t, input, closing) == t.a.apply(
            t.b.apply(input, closing),
            closing,
        ),
{
}

/// Composing an identity map before a transducer is a no-op.
pub proof fn law_compose_identity_first<RI, AT, F>(
    t: ComposedTransducer<
        AT,
        MapTransducer<F, <AT::RO as Reducing>::Input, <AT::RO as Reducing>::Input>,
    >,
    input: Seq<<<AT::RO as Reducing>::Input as DeepView>::V>,
    closing: bool,
) where
    RI: Reducing,
    AT: Transducer<RI>,
    F: Fn(<AT::RO as Reducing>::Input) -> <AT::RO as Reducing>::Input,

    requires
        forall|a: <<AT::RO as Reducing>::Input as DeepView>::V| #[trigger] (t.b.model@)(a) == a,
    ensures
        Transducer::<RI>::apply(&t, input, closing) == t.a.apply(input, closing),
{
    assert(input.map_values(t.b.model@) =~= input);
}

/// Composing an identity map behind a transducer is a no-op.
pub proof fn law_compose_identity_last<RI, BT, F>(
    t: ComposedTransducer<MapTransducer<F, RI::Input, RI::Input>, BT>,
    input: Seq<<<BT::RO as Reducing>::Input as DeepView>::V>,
    closing: bool,
) where
    RI: Reducing,
    F: Fn(RI::Input) -> RI::Input,
    BT: Transducer<MapReducer<RI, F, RI::Input, RI::Input>>,

    requires
        forall|a: <RI::Input as DeepView>::V| #[trigger] (t.a.model@)(a) == a,
    ensures
        Transducer::<RI>::apply(&t, input, closing) == t.b.apply(input, closing),
{
    let mid = t.b.apply(input, closing);
    assert(mid.map_values(t.a.model@) =~= mid);
}

/// A composition run through the vector driver gives what its part `b` run through the
/// vector driver, and then its part `a` run on that output, give. This holds of every
/// part `b` that denotes the same whatever it is bound to, as each stage of this library
/// does by its definition.
pub proof fn law_compose_runs<AT, BT, I, M, O>(
    t: ComposedTransducer<AT, BT>,
    input: Seq<I::V>,
) where
    I: DeepView,
    M: DeepView,
    O: DeepView,
    AT: Transducer<VecReducer<O>>,
    <AT as Transducer<VecReducer<O>>>::RO: Reducing<Input = M>,
    BT: Transducer<<AT as Transducer<VecReducer<O>>>::RO> + Transducer<VecReducer<M>>,
    <BT as Transducer<<AT as Transducer<VecReducer<O>>>::RO>>::RO: Reducing<Input = I>,
    <BT as Transducer<VecReducer<M>>>::RO: Reducing<Input = I>,

    requires
        forall|s: Seq<I::V>, c: bool|
            #![trigger Transducer::<VecReducer<M>>::apply(&t.b, s, c)]
            Transducer::<<AT as Transducer<VecReducer<O>>>::RO>::apply(&t.b, s, c)
                == Transducer::<VecReducer<M>>::apply(&t.b, s, c),
    ensures
        Transducer::<VecReducer<O>>::apply(&t, input, true) == Transducer::<VecReducer<O>>::apply(
            &t.a,
            Transducer::<VecReducer<M>>::apply(&t.b, input, true),
            true,
        ),
{
}

/// Composing an identity map behind a transducer and running the composition through a
/// driver gives what running the transducer alone gives. This holds of every transducer
/// that denotes the same whatever it is bound to.
pub proof fn law_identity_behind_runs<RI, BT, F, I>(
    t: ComposedTransducer<MapTransducer<F, RI::Input, RI::Input>, BT>,
    input: Seq<I::V>,
    closing: bool,
) where
    RI: Reducing,
    I: DeepView,
    F: Fn(RI::Input) -> RI::Input,
    BT: Transducer<MapReducer<RI, F, RI::Input, RI::Input>> + Transducer<RI>,
    <BT as Transducer<MapReducer<RI, F, RI::Input, RI::Input>>>::RO: Reducing<Input = I>,
    <BT as Transducer<RI>>::RO: Reducing<Input = I>,

    requires
        forall|a: <RI::Input as DeepView>::V| #[trigger] (t.a.model@)(a) == a,
        forall|s: Seq<I::V>, c: bool|
            #![trigger Transducer::<RI>::apply(&t.b, s, c)]
            Transducer::<MapReducer<RI, F, RI::Input, RI::Input>>::apply(&t.b, s, c)
                == Transducer::<RI>::apply(&t.b, s, c),
    ensures
        Transducer::<RI>::apply(&t, input, closing) == Transducer::<RI>::apply(
            &t.b,
            input,
            closing,
        ),
{
    let mid = Transducer::<RI>::apply(&t.b, input, closing);
    assert(mid.map_values(t.a.model@) =~= mid);
}

/// Two maps composed apply the one function after the other to every value.
pub proof fn law_map_map<F, G, I, M, O, RI>(
    t: ComposedTransducer<MapTransducer<G, M, O>, MapTransducer<F, I, M>>,
    input: Seq<I::V>,
    closing: bool,
) where
    F: Fn(I) -> M,
    G: Fn(M) -> O,
    I: DeepView,
    M: DeepView,
    O: DeepView,
    RI: Reducing<Input = O>,

    ensures
        Transducer::<RI>::apply(&t, input, closing) == input.map_values(
            |a: I::V| (t.a.model@)((t.b.model@)(a)),
        ),
{
    assert(input.map_values(t.b.model@).map_values(t.a.model@) =~= input.map_values(
        |a: I::V| (t.a.model@)((t.b.model@)(a)),
    ));
}

/// `mapcat` denotes the expansions of all values, joined in order.
pub proof fn law_mapcat<F, I, O, RI>(
    t: MapcatTransducer<F, I, O>,
    input: Seq<I::V>,
    closing: bool,
) where F: Fn(I) -> Vec<O>, I: DeepView, O: DeepView, RI: Reducing<Input = O>
    ensures
        Transducer::<RI>::wf(&t) == t.valid(),
        Transducer::<RI>::apply(&t, input, closing) == expanded(input, t.model@),
{
}

/// `filter` and `remove` denote the values the predicate keeps, in order.
pub proof fn law_filter<F, T, RI>(t: FilterTransducer<F, T>, input: Seq<T::V>, closing: bool) where
    F: Fn(&T) -> bool,
    T: DeepView,
    RI: Reducing<Input = T>,

    ensures
        Transducer::<RI>::wf(&t) == decides(t.f, t.model@),
        Transducer::<RI>::apply(&t, input, closing) == input.filter(t.keeps()),
{
}

/// `take_while` denotes the longest prefix on which the predicate holds.
pub proof fn law_take_while<F, T, RI>(
    t: TakeWhileTransducer<F, T>,
    input: Seq<T::V>,
    closing: bool,
) where F: Fn(&T) -> bool, T: DeepView, RI: Reducing<Input = T>
    ensures
        Transducer::<RI>::wf(&t) == decides(t.pred, t.model@),
        Transducer::<RI>::apply(&t, input, closing) == leading(input, t.model@),
{
}

/// `drop_while` denotes the input from its first value that fails the predicate on.
pub proof fn law_drop_while<F, T, RI>(
    t: DropWhileTransducer<F, T>,
    input: Seq<T::V>,
    closing: bool,
) where F: Fn(&T) -> bool, T: DeepView, RI: Reducing<Input = T>
    ensures
        Transducer::<RI>::wf(&t) == decides(t.pred, t.model@),
        Transducer::<RI>::apply(&t, input, closing) == trailing(input, t.model@),
{
}

/// `drop_while` composed before `take_while` is the one applied after the other.
pub proof fn law_drop_then_take<F, G, T, RI>(
    t: ComposedTransducer<TakeWhileTransducer<G, T>, DropWhileTransducer<F, T>>,
    input: Seq<T::V>,
    closing: bool,
) where F: Fn(&T) -> bool, G: Fn(&T) -> bool, T: DeepView, RI: Reducing<Input = T>
    ensures
        Transducer::<RI>::apply(&t, input, closing) == leading(
            trailing(input, t.b.model@),
            t.a.model@,
        ),
{
}

/// Chunking keeps the values and their order. On a completed run the chunks of
/// `partition_all` joined are the input again; those of `partition` are the input without
/// the values left over behind the last full chunk.
pub proof fn law_partition_joined<T, RI>(t: PartitionTransducer<T>, input: Seq<T::V>) where
    T: DeepView,
    RI: Reducing<Input = Vec<T>>,

    ensures
        t.all ==> Transducer::<RI>::apply(&t, input, true).flatten() == input,
        !t.all ==> Transducer::<RI>::apply(&t, input, true).flatten() + leftover(
            input,
            t.size as nat,
        ) == input,
{
    let n = t.size as nat;
    let whole = whole_chunks(input, n);
    let rest = leftover(input, n);
    lemma_chunks_cover(input, n);
    if t.all {
        if rest.len() > 0 {
            whole.lemma_flatten_push(rest);
        } else {
            assert(whole.flatten() + rest =~= whole.flatten());
        }
    }
}

/// Early termination loses nothing: once `take` has seen as many values as it lets
/// through, whatever follows does not change what it denotes.
pub proof fn law_take_ignores_the_rest<RI: Reducing>(
    t: TakeTransducer,
    input: Seq<<RI::Input as DeepView>::V>,
    more: Seq<<RI::Input as DeepView>::V>,
    closing: bool,
)
    requires
        input.len() >= t.0,
    ensures
        Transducer::<RI>::apply(&t, input + more, closing) == Transducer::<RI>::apply(
            &t,
            input,
            closing,
        ),
        Transducer::<RI>::apply(&t, input, closing) == input.take(t.0 as int),
{
    assert(first_n(input + more, t.0 as nat) =~= first_n(input, t.0 as nat));
}

} // verus!
