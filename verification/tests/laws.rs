use rs_transducers::applications::vec::Into;
use rs_transducers::compose;
use rs_transducers::transducers;

#[test]
fn functor_law_on_the_vector_driver() {
    let f = |x: i32| x * x - 1;
    let input: Vec<i32> = vec![-3, 0, 4, 9];
    let direct: Vec<i32> = input.iter().map(|x| f(*x)).collect();
    let driven = input.transduce_into(transducers::map(f)).unwrap();
    assert_eq!(direct, driven);
    assert_eq!(vec![8, -1, 15, 80], driven);
}

#[test]
fn mapping_the_identity_changes_nothing() {
    let input: Vec<i32> = vec![4, 5, 6];
    let driven = input.transduce_into(transducers::map(|x: i32| x)).unwrap();
    assert_eq!(vec![4, 5, 6], driven);
}

#[test]
fn composition_is_one_stage_after_the_other() {
    let f = |x: i32| x + 10;
    let g = |x: i32| x * 2;
    let input: Vec<i32> = vec![1, 2, 3];
    let composed = input
        .transduce_into(compose(transducers::map(g), transducers::map(f)))
        .unwrap();
    let first = vec![1, 2, 3].transduce_into(transducers::map(f)).unwrap();
    let then = first.transduce_into(transducers::map(g)).unwrap();
    assert_eq!(then, composed);
    assert_eq!(vec![22, 24, 26], composed);
}

#[test]
fn composition_order_matters() {
    let f = |x: i32| x + 10;
    let g = |x: i32| x * 2;
    let one = vec![1, 2, 3]
        .transduce_into(compose(transducers::map(g), transducers::map(f)))
        .unwrap();
    let other = vec![1, 2, 3]
        .transduce_into(compose(transducers::map(f), transducers::map(g)))
        .unwrap();
    assert_eq!(vec![22, 24, 26], one);
    assert_eq!(vec![12, 14, 16], other);
}

#[test]
fn composing_with_the_identity_is_a_no_op() {
    let even = |x: &i32| x % 2 == 0;
    let alone = vec![1, 2, 3, 4].transduce_into(transducers::filter(even)).unwrap();
    let before = vec![1, 2, 3, 4]
        .transduce_into(compose(transducers::filter(even), transducers::map(|x: i32| x)))
        .unwrap();
    let after = vec![1, 2, 3, 4]
        .transduce_into(compose(transducers::map(|x: i32| x), transducers::filter(even)))
        .unwrap();
    assert_eq!(vec![2, 4], alone);
    assert_eq!(alone, before);
    assert_eq!(alone, after);
}

#[test]
fn composition_with_a_buffering_stage() {
    let input: Vec<u8> = vec![1, 2, 3, 4, 5];
    let composed = input
        .transduce_into(compose(transducers::partition_all(2), transducers::take(3)))
        .unwrap();
    assert_eq!(vec![vec![1u8, 2], vec![3]], composed);
    let input: Vec<u8> = vec![1, 2, 3, 4, 5];
    let composed = input
        .transduce_into(compose(transducers::take(1), transducers::partition_all(2)))
        .unwrap();
    assert_eq!(vec![vec![1u8, 2]], composed);
}

#[test]
fn three_stages_compose() {
    let input: Vec<u32> = vec![1, 2, 3, 4, 5, 6, 7, 8, 9, 10];
    let transducer = compose(
        transducers::take(2),
        compose(transducers::map(|x: u32| x * 10), transducers::filter(|x: &u32| x % 3 == 0)),
    );
    let result = input.transduce_into(transducer).unwrap();
    assert_eq!(vec![30, 60], result);
}

#[test]
fn drop_while_before_take_while_is_sequential_application() {
    let small = |x: &u32| *x < 3;
    let modest = |x: &u32| *x < 6;
    let input: Vec<u32> = vec![1, 2, 3, 4, 5, 6, 7, 1, 2];
    let composed = input
        .transduce_into(compose(transducers::take_while(modest), transducers::drop_while(small)))
        .unwrap();
    let first = vec![1u32, 2, 3, 4, 5, 6, 7, 1, 2]
        .transduce_into(transducers::drop_while(small))
        .unwrap();
    assert_eq!(vec![3, 4, 5, 6, 7, 1, 2], first);
    let then = first.transduce_into(transducers::take_while(modest)).unwrap();
    assert_eq!(then, composed);
    assert_eq!(vec![3, 4, 5], composed);
}

#[test]
fn drop_while_does_not_close_again() {
    let input: Vec<u32> = vec![1, 1, 5, 1, 1, 5, 1];
    let result = input.transduce_into(transducers::drop_while(|x: &u32| *x == 1)).unwrap();
    assert_eq!(vec![5, 1, 1, 5, 1], result);
}

#[test]
fn early_termination() {
    let input: Vec<u32> = vec![1, 2, 3, 4, 5, 6, 7];
    let result = input.transduce_into(transducers::take(5)).unwrap();
    assert_eq!(vec![1, 2, 3, 4, 5], result);
}

#[test]
fn chunking() {
    let input: Vec<u32> = vec![1, 2, 3, 4, 5, 6, 7];
    let result = input.transduce_into(transducers::partition(2)).unwrap();
    assert_eq!(vec![vec![1u32, 2], vec![3, 4], vec![5, 6]], result);
    let input: Vec<u32> = vec![1, 2, 3, 4, 5, 6, 7];
    let result = input.transduce_into(transducers::partition_all(2)).unwrap();
    assert_eq!(vec![vec![1u32, 2], vec![3, 4], vec![5, 6], vec![7]], result);
}
