use rs_transducers::applications::iter::{Advance, IterState, TransduceIter};
use rs_transducers::compose;
use rs_transducers::transducers;
use std::cell::Cell;

/// A trivial function to test function references
fn duplicator(i: isize) -> Vec<isize> {
    vec![i, i]
}

#[test]
fn test_iterator() {
    let source = vec![1, 2, 3];
    let transducer = transducers::mapcat(duplicator);
    let result: Vec<isize> = source.into_iter().transduce(transducer).collect();
    assert_eq!(vec![1, 1, 2, 2, 3, 3], result);
}

#[test]
fn functor_law_on_the_iterator_driver() {
    let f = |x: i32| x * x - 1;
    let input: Vec<i32> = vec![-3, 0, 4, 9];
    let direct: Vec<i32> = input.iter().map(|x| f(*x)).collect();
    let driven = input.into_iter().transduce(transducers::map(f)).collect();
    assert_eq!(direct, driven);
}

#[test]
fn next_hands_out_one_value_at_a_time() {
    let source: Vec<u8> = vec![1, 2, 3, 4, 5];
    let mut it = source.into_iter().transduce(transducers::filter(|x: &u8| x % 2 == 1));
    assert_eq!(Some(1), it.next());
    assert_eq!(Some(3), it.next());
    assert_eq!(Some(5), it.next());
    assert_eq!(None, it.next());
    assert_eq!(None, it.next());
}

#[test]
fn the_iterator_pulls_only_what_it_needs() {
    let pulled = Cell::new(0u32);
    let count = |x: u8| {
        pulled.set(pulled.get() + 1);
        x
    };
    let source: Vec<u8> = vec![1, 2, 3, 4, 5];
    let mut it = source.into_iter().transduce(transducers::map(count));
    assert_eq!(0, pulled.get());
    assert_eq!(Some(1), it.next());
    assert_eq!(1, pulled.get());
    assert_eq!(Some(2), it.next());
    assert_eq!(2, pulled.get());
}

#[test]
fn the_iterator_queues_what_one_input_expands_to() {
    let pulled = Cell::new(0u32);
    let expand = |x: u8| {
        pulled.set(pulled.get() + 1);
        vec![x, x + 10, x + 20]
    };
    let source: Vec<u8> = vec![1, 2];
    let mut it = source.into_iter().transduce(transducers::mapcat(expand));
    assert_eq!(Some(1), it.next());
    assert_eq!(Some(11), it.next());
    assert_eq!(Some(21), it.next());
    assert_eq!(1, pulled.get());
    assert_eq!(Some(2), it.next());
    assert_eq!(2, pulled.get());
    assert_eq!(Some(12), it.next());
    assert_eq!(Some(22), it.next());
    assert_eq!(None, it.next());
}

#[test]
fn the_iterator_stops_pulling_after_stop() {
    let pulled = Cell::new(0u32);
    let count = |x: u8| {
        pulled.set(pulled.get() + 1);
        x
    };
    let source: Vec<u8> = vec![1, 2, 3, 4, 5];
    let transducer = compose(transducers::take(2), transducers::map(count));
    let result = source.into_iter().transduce(transducer).collect();
    assert_eq!(vec![1, 2], result);
    assert_eq!(2, pulled.get());
}

#[test]
fn the_iterator_flushes_at_the_end() {
    let source: Vec<u8> = vec![1, 2, 3];
    let mut it = source.into_iter().transduce(transducers::partition_all(2));
    assert_eq!(Some(vec![1, 2]), it.next());
    assert_eq!(Some(vec![3]), it.next());
    assert_eq!(None, it.next());
}

#[test]
fn the_iterator_over_nothing() {
    let source: Vec<u8> = vec![];
    let mut it = source.into_iter().transduce(transducers::map(|x: u8| x));
    assert_eq!(None, it.next());
}

#[test]
fn collect_returns_what_is_left() {
    let source: Vec<u8> = vec![1, 2, 3, 4];
    let mut it = source.into_iter().transduce(transducers::map(|x: u8| x * 2));
    assert_eq!(Some(2), it.next());
    assert_eq!(vec![4, 6, 8], it.collect());
}

#[test]
fn a_range_can_be_the_source() {
    let result = (1u32..8).transduce(transducers::partition(3)).collect();
    assert_eq!(vec![vec![1u32, 2, 3], vec![4, 5, 6]], result);
}

#[test]
fn the_iterator_pulls_then_drains_then_is_exhausted() {
    let source: Vec<u8> = vec![1, 2, 3];
    let mut it = source.into_iter().transduce(transducers::partition_all(1));
    assert_eq!(IterState::Pulling, it.state());
    assert_eq!(Some(vec![1]), it.next());
    assert_eq!(IterState::Pulling, it.state());
    assert_eq!(Some(vec![2]), it.next());
    assert_eq!(Some(vec![3]), it.next());
    assert_eq!(IterState::Pulling, it.state());
    assert_eq!(None, it.next());
    assert_eq!(IterState::Exhausted, it.state());
}

#[test]
fn the_iterator_drains_what_completion_flushed() {
    let source: Vec<u8> = vec![1, 2, 3];
    let expand = |chunk: Vec<u8>| -> Vec<u8> { chunk.into_iter().map(|x| x * 10).collect() };
    let transducer = compose(transducers::mapcat(expand), transducers::partition_all(5));
    let mut it = source.into_iter().transduce(transducer);
    assert_eq!(IterState::Pulling, it.state());
    assert_eq!(Some(10), it.next());
    assert_eq!(IterState::Draining, it.state());
    assert_eq!(Some(20), it.next());
    assert_eq!(IterState::Draining, it.state());
    assert_eq!(Some(30), it.next());
    assert_eq!(IterState::Exhausted, it.state());
    assert_eq!(None, it.next());
    assert_eq!(IterState::Exhausted, it.state());
}

#[test]
fn the_iterator_drains_after_stop() {
    let source: Vec<u8> = vec![1, 2, 3];
    let twice = |x: u8| -> Vec<u8> { vec![x, x] };
    let transducer = compose(transducers::take(3), transducers::mapcat(twice));
    let mut it = source.into_iter().transduce(transducer);
    assert_eq!(Some(1), it.next());
    assert_eq!(IterState::Pulling, it.state());
    assert_eq!(Some(1), it.next());
    assert_eq!(IterState::Pulling, it.state());
    assert_eq!(Some(2), it.next());
    assert_eq!(IterState::Exhausted, it.state());
    assert_eq!(None, it.next());
}

#[test]
fn advance_pulls_one_value_at_a_time() {
    let source: Vec<u8> = vec![1, 2, 3, 4];
    let mut it = source.into_iter().transduce(transducers::filter(|x: &u8| x % 2 == 0));
    assert_eq!(Advance::Pending, it.advance());
    assert_eq!(Advance::Yielded(2), it.advance());
    assert_eq!(Advance::Pending, it.advance());
    assert_eq!(Advance::Yielded(4), it.advance());
    assert_eq!(Advance::Finished, it.advance());
    assert_eq!(Advance::Finished, it.advance());
}

#[test]
fn advance_hands_out_what_is_queued_before_it_pulls() {
    let pulled = Cell::new(0u32);
    let expand = |x: u8| {
        pulled.set(pulled.get() + 1);
        vec![x, x]
    };
    let source: Vec<u8> = vec![1, 2];
    let mut it = source.into_iter().transduce(transducers::mapcat(expand));
    assert_eq!(Advance::Yielded(1), it.advance());
    assert_eq!(Advance::Yielded(1), it.advance());
    assert_eq!(1, pulled.get());
    assert_eq!(Advance::Yielded(2), it.advance());
    assert_eq!(Advance::Yielded(2), it.advance());
    assert_eq!(2, pulled.get());
    assert_eq!(Advance::Finished, it.advance());
}

#[test]
fn advance_completes_the_chain_at_the_end_of_the_source() {
    let source: Vec<u8> = vec![1, 2, 3];
    let mut it = source.into_iter().transduce(transducers::partition_all(2));
    assert_eq!(Advance::Pending, it.advance());
    assert_eq!(Advance::Yielded(vec![1, 2]), it.advance());
    assert_eq!(Advance::Pending, it.advance());
    assert_eq!(IterState::Pulling, it.state());
    assert_eq!(Advance::Yielded(vec![3]), it.advance());
    assert_eq!(IterState::Exhausted, it.state());
    assert_eq!(Advance::Finished, it.advance());
}

#[test]
fn a_source_without_end_is_left_alone_once_the_chain_stops() {
    let mut it = (1u64..).transduce(compose(
        transducers::take(3),
        transducers::filter(|x: &u64| x % 1000 == 0),
    ));
    let mut got = Vec::new();
    let mut moves = 0u32;
    loop {
        moves += 1;
        match it.advance() {
            Advance::Yielded(value) => got.push(value),
            Advance::Pending => {}
            Advance::Finished => break,
        }
    }
    assert_eq!(vec![1000, 2000, 3000], got);
    assert_eq!(3001, moves);
    assert_eq!(IterState::Exhausted, it.state());
    assert_eq!(Advance::Finished, it.advance());
}

#[test]
fn a_source_without_end_can_be_advanced_forever() {
    let mut it = (1u64..).transduce(transducers::filter(|x: &u64| *x == 0));
    for _ in 0..1000 {
        assert_eq!(Advance::Pending, it.advance());
    }
    assert_eq!(IterState::Pulling, it.state());
}
