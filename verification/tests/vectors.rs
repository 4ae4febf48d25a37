use rs_transducers::applications::vec::{drive, Into, Ref};
use rs_transducers::compose;
use rs_transducers::transducers;

#[test]
fn test_vec_ref() {
    let source = vec![1, 2, 3];
    let transducer = transducers::map(|x| x + 1);
    let result = source.transduce_ref(transducer).unwrap();
    assert_eq!(vec![2, 3, 4], result);
}

/// A trivial function to test function references
fn duplicator(i: isize) -> Vec<isize> {
    vec![i, i]
}

#[test]
fn test_compose() {
    let source = vec![1, 2, 3];
    let ta = transducers::mapcat(duplicator);
    let tb = transducers::map(|x| x * 2);
    let transducer = compose(tb, ta);
    let result = source.transduce_into(transducer).unwrap();
    assert_eq!(vec![2, 2, 4, 4, 6, 6], result);
}

#[test]
fn test_filter() {
    let source = vec![1, 2, 3, 4, 5];
    let transducer = transducers::filter(|x| x % 2 == 0);
    let result = source.transduce_into(transducer).unwrap();
    assert_eq!(vec![2, 4], result);
}

#[test]
fn test_partition() {
    {
        let source = vec![1, 2, 3, 4, 5, 6, 7];
        let transducer = transducers::partition(2);
        let result = source.transduce_into(transducer).unwrap();
        let expected_result: Vec<Vec<usize>> = vec![vec![1, 2], vec![3, 4], vec![5, 6]];
        assert_eq!(expected_result, result);
    }
    {
        let source = vec![1, 2, 3, 4, 5, 6, 7];
        let transducer = transducers::partition_all(2);
        let result = source.transduce_into(transducer).unwrap();
        let expected_result: Vec<Vec<usize>> = vec![vec![1, 2], vec![3, 4], vec![5, 6], vec![7]];
        assert_eq!(expected_result, result);
    }
}

#[test]
fn test_take() {
    let source = vec![1, 2, 3, 4, 5, 6, 7];
    let transducer = transducers::take(5);
    let result = source.transduce_into(transducer).unwrap();
    assert_eq!(vec![1, 2, 3, 4, 5], result);

    let source2 = vec![1, 2, 3, 4, 5, 6, 7];
    let transducer2 = compose(transducers::take(2), transducers::filter(|x| x % 2 == 0));
    let result = source2.transduce_into(transducer2).unwrap();
    assert_eq!(vec![2, 4], result);
}

#[test]
fn drive_takes_any_iterator() {
    let result = drive(1u32..100, transducers::take(3)).unwrap();
    assert_eq!(vec![1, 2, 3], result);
    let letters = vec!['a', 'b', 'c'];
    let result = drive(letters.iter().rev(), transducers::partition_all(2)).unwrap();
    assert_eq!(vec![vec![&'c', &'b'], vec![&'a']], result);
}
