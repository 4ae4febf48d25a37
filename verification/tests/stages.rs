use rs_transducers::applications::vec::{Into, Ref};
use rs_transducers::compose;
use rs_transducers::transducers;
use std::cell::Cell;
use std::collections::HashMap;

#[test]
fn map_applies_the_function_to_every_value() {
    let source: Vec<u32> = vec![10, 20, 30];
    let result = source.transduce_into(transducers::map(|x: u32| x * 3)).unwrap();
    assert_eq!(vec![30, 60, 90], result);
}

#[test]
fn map_may_change_the_type() {
    let source: Vec<u32> = vec![1, 22, 333];
    let result = source.transduce_into(transducers::map(|x: u32| x.to_string())).unwrap();
    assert_eq!(vec!["1".to_string(), "22".to_string(), "333".to_string()], result);
}

#[test]
fn map_of_nothing_is_nothing() {
    let source: Vec<u32> = vec![];
    let result = source.transduce_into(transducers::map(|x: u32| x + 1)).unwrap();
    assert_eq!(Vec::<u32>::new(), result);
}

#[test]
fn mapcat_joins_the_expansions_in_order() {
    let source: Vec<u8> = vec![0, 1, 2, 3];
    let expand = |n: u8| -> Vec<u8> { (0..n).collect() };
    let result = source.transduce_into(transducers::mapcat(expand)).unwrap();
    assert_eq!(vec![0, 0, 1, 0, 1, 2], result);
}

#[test]
fn mapcat_stops_in_the_middle_of_an_expansion() {
    let source: Vec<u8> = vec![1, 2, 3];
    let twice = |n: u8| -> Vec<u8> { vec![n, n] };
    let transducer = compose(transducers::take(3), transducers::mapcat(twice));
    let result = source.transduce_into(transducer).unwrap();
    assert_eq!(vec![1, 1, 2], result);
}

#[test]
fn filter_keeps_what_the_predicate_accepts() {
    let source: Vec<i64> = vec![-2, -1, 0, 1, 2];
    let result = source.transduce_into(transducers::filter(|x: &i64| *x > 0)).unwrap();
    assert_eq!(vec![1, 2], result);
}

#[test]
fn remove_keeps_what_the_predicate_rejects() {
    let source: Vec<i64> = vec![-2, -1, 0, 1, 2];
    let result = source.transduce_into(transducers::remove(|x: &i64| *x > 0)).unwrap();
    assert_eq!(vec![-2, -1, 0], result);
}

#[test]
fn filter_and_remove_split_the_input() {
    let even = |x: &u32| x % 2 == 0;
    let kept = vec![1u32, 2, 3, 4, 5, 6].transduce_into(transducers::filter(even)).unwrap();
    let dropped = vec![1u32, 2, 3, 4, 5, 6].transduce_into(transducers::remove(even)).unwrap();
    assert_eq!(vec![2, 4, 6], kept);
    assert_eq!(vec![1, 3, 5], dropped);
}

#[test]
fn partition_drops_the_incomplete_chunk() {
    let source: Vec<u8> = vec![1, 2, 3, 4, 5, 6, 7, 8];
    let result = source.transduce_into(transducers::partition(3)).unwrap();
    assert_eq!(vec![vec![1u8, 2, 3], vec![4, 5, 6]], result);
}

#[test]
fn partition_all_flushes_the_incomplete_chunk() {
    let source: Vec<u8> = vec![1, 2, 3, 4, 5, 6, 7, 8];
    let result = source.transduce_into(transducers::partition_all(3)).unwrap();
    assert_eq!(vec![vec![1u8, 2, 3], vec![4, 5, 6], vec![7, 8]], result);
}

#[test]
fn partition_all_adds_no_empty_chunk() {
    let source: Vec<u8> = vec![1, 2, 3, 4];
    let result = source.transduce_into(transducers::partition_all(2)).unwrap();
    assert_eq!(vec![vec![1u8, 2], vec![3, 4]], result);
    let nothing: Vec<u8> = vec![];
    let result = nothing.transduce_into(transducers::partition_all(2)).unwrap();
    assert_eq!(Vec::<Vec<u8>>::new(), result);
}

#[test]
fn partition_of_size_one_wraps_every_value() {
    let source: Vec<u8> = vec![7, 8, 9];
    let result = source.transduce_into(transducers::partition(1)).unwrap();
    assert_eq!(vec![vec![7u8], vec![8], vec![9]], result);
}

#[test]
fn partition_of_size_zero_never_fills_a_chunk() {
    let source: Vec<u8> = vec![7, 8, 9];
    let result = source.transduce_into(transducers::partition(0)).unwrap();
    assert_eq!(Vec::<Vec<u8>>::new(), result);
    let source: Vec<u8> = vec![7, 8, 9];
    let result = source.transduce_into(transducers::partition_all(0)).unwrap();
    assert_eq!(vec![vec![7u8, 8, 9]], result);
}

#[test]
fn partition_larger_than_the_input() {
    let source: Vec<u8> = vec![7, 8, 9];
    let result = source.transduce_into(transducers::partition(5)).unwrap();
    assert_eq!(Vec::<Vec<u8>>::new(), result);
    let source: Vec<u8> = vec![7, 8, 9];
    let result = source.transduce_into(transducers::partition_all(5)).unwrap();
    assert_eq!(vec![vec![7u8, 8, 9]], result);
}

#[test]
fn take_more_than_there_is() {
    let source: Vec<u8> = vec![1, 2, 3];
    let result = source.transduce_into(transducers::take(10)).unwrap();
    assert_eq!(vec![1, 2, 3], result);
}

#[test]
fn take_exactly_what_there_is() {
    let source: Vec<u8> = vec![1, 2, 3];
    let result = source.transduce_into(transducers::take(3)).unwrap();
    assert_eq!(vec![1, 2, 3], result);
}

#[test]
fn take_zero_lets_nothing_through() {
    let source: Vec<u8> = vec![1, 2, 3];
    let result = source.transduce_into(transducers::take(0)).unwrap();
    assert_eq!(Vec::<u8>::new(), result);
}

#[test]
fn take_feeds_nothing_beyond_the_last_value_taken() {
    let calls = Cell::new(0u32);
    let count = |x: u32| {
        calls.set(calls.get() + 1);
        x
    };
    let source: Vec<u32> = vec![1, 2, 3, 4, 5, 6, 7];
    let transducer = compose(transducers::take(5), transducers::map(count));
    let result = source.transduce_into(transducer).unwrap();
    assert_eq!(vec![1, 2, 3, 4, 5], result);
    assert_eq!(5, calls.get());
}

#[test]
fn take_zero_looks_at_one_value() {
    let calls = Cell::new(0u32);
    let count = |x: u32| {
        calls.set(calls.get() + 1);
        x
    };
    let source: Vec<u32> = vec![1, 2, 3];
    let transducer = compose(transducers::take(0), transducers::map(count));
    let result = source.transduce_into(transducer).unwrap();
    assert_eq!(Vec::<u32>::new(), result);
    assert_eq!(1, calls.get());
}

#[test]
fn take_while_stops_at_the_first_failure() {
    let source: Vec<u8> = vec![2, 4, 6, 7, 8, 10];
    let result = source.transduce_into(transducers::take_while(|x: &u8| x % 2 == 0)).unwrap();
    assert_eq!(vec![2, 4, 6], result);
}

#[test]
fn take_while_does_not_look_past_the_failure() {
    let calls = Cell::new(0u32);
    let count = |x: u8| {
        calls.set(calls.get() + 1);
        x
    };
    let source: Vec<u8> = vec![2, 4, 5, 6, 8];
    let transducer = compose(transducers::take_while(|x: &u8| x % 2 == 0), transducers::map(count));
    let result = source.transduce_into(transducer).unwrap();
    assert_eq!(vec![2, 4], result);
    assert_eq!(3, calls.get());
}

#[test]
fn take_while_all_or_nothing() {
    let all = vec![1u8, 2, 3].transduce_into(transducers::take_while(|x: &u8| *x < 9)).unwrap();
    assert_eq!(vec![1, 2, 3], all);
    let none = vec![1u8, 2, 3].transduce_into(transducers::take_while(|x: &u8| *x > 9)).unwrap();
    assert_eq!(Vec::<u8>::new(), none);
}

#[test]
fn drop_skips_the_first_values() {
    let source: Vec<u8> = vec![1, 2, 3, 4, 5];
    let result = source.transduce_into(transducers::drop(2)).unwrap();
    assert_eq!(vec![3, 4, 5], result);
}

#[test]
fn drop_zero_and_drop_everything() {
    let all = vec![1u8, 2, 3].transduce_into(transducers::drop(0)).unwrap();
    assert_eq!(vec![1, 2, 3], all);
    let none = vec![1u8, 2, 3].transduce_into(transducers::drop(3)).unwrap();
    assert_eq!(Vec::<u8>::new(), none);
    let none = vec![1u8, 2, 3].transduce_into(transducers::drop(7)).unwrap();
    assert_eq!(Vec::<u8>::new(), none);
}

#[test]
fn drop_while_opens_for_good() {
    let source: Vec<u8> = vec![2, 4, 5, 6, 8, 9];
    let result = source.transduce_into(transducers::drop_while(|x: &u8| x % 2 == 0)).unwrap();
    assert_eq!(vec![5, 6, 8, 9], result);
}

#[test]
fn drop_while_asks_the_predicate_no_more_once_open() {
    let calls = Cell::new(0u32);
    let even = |x: &u8| {
        calls.set(calls.get() + 1);
        x % 2 == 0
    };
    let source: Vec<u8> = vec![2, 4, 5, 6, 8, 9];
    let result = source.transduce_into(transducers::drop_while(even)).unwrap();
    assert_eq!(vec![5, 6, 8, 9], result);
    assert_eq!(3, calls.get());
}

#[test]
fn drop_while_all_or_nothing() {
    let all = vec![1u8, 2, 3].transduce_into(transducers::drop_while(|x: &u8| *x > 9)).unwrap();
    assert_eq!(vec![1, 2, 3], all);
    let none = vec![1u8, 2, 3].transduce_into(transducers::drop_while(|x: &u8| *x < 9)).unwrap();
    assert_eq!(Vec::<u8>::new(), none);
}

#[test]
fn replace_substitutes_the_keys() {
    let mut table = HashMap::new();
    table.insert(1u32, 100u32);
    table.insert(3u32, 300u32);
    let source: Vec<u32> = vec![1, 2, 3, 4, 1];
    let result = source.transduce_into(transducers::replace(table)).unwrap();
    assert_eq!(vec![100, 2, 300, 4, 100], result);
}

#[test]
fn replace_does_not_chase_entries() {
    let mut table = HashMap::new();
    table.insert(1u32, 2u32);
    table.insert(2u32, 3u32);
    let source: Vec<u32> = vec![1, 2, 3];
    let result = source.transduce_into(transducers::replace(table)).unwrap();
    assert_eq!(vec![2, 3, 3], result);
}

#[test]
fn replace_with_an_empty_table_changes_nothing() {
    let table: HashMap<String, String> = HashMap::new();
    let source = vec!["a".to_string(), "b".to_string()];
    let result = source.transduce_into(transducers::replace(table)).unwrap();
    assert_eq!(vec!["a".to_string(), "b".to_string()], result);
}

#[test]
fn the_borrowed_driver_leaves_the_source_alone() {
    let source: Vec<u32> = vec![1, 2, 3, 4];
    let evens = source.transduce_ref(transducers::filter(|x: &&u32| **x % 2 == 0)).unwrap();
    assert_eq!(vec![&2, &4], evens);
    let all = source.transduce_ref(transducers::take(10)).unwrap();
    assert_eq!(vec![&1, &2, &3, &4], all);
    assert_eq!(vec![1, 2, 3, 4], source);
}

#[test]
fn the_borrowed_and_the_owned_driver_agree() {
    let source: Vec<u32> = vec![5, 6, 7, 8, 9];
    let by_ref = source.transduce_ref(transducers::map(|x: &u32| *x * 2)).unwrap();
    let by_value = source.transduce_into(transducers::map(|x: u32| x * 2)).unwrap();
    assert_eq!(by_ref, by_value);
}
