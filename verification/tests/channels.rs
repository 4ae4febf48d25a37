use rs_transducers::applications::channels::transducing_channel;
use rs_transducers::compose;
use rs_transducers::transducers;

#[test]
fn test_channels() {
    let transducer = transducers::map(|x| x + 1);
    let (mut tx, rx) = transducing_channel(transducer);
    for i in 0..3 {
        tx.send(i).unwrap();
    }
    tx.close().unwrap();
    assert_eq!(1, rx.recv().unwrap());
    assert_eq!(2, rx.recv().unwrap());
    assert_eq!(3, rx.recv().unwrap());
}

#[test]
fn the_receiver_sees_the_end_once_the_sender_is_gone() {
    let (mut tx, rx) = transducing_channel(transducers::map(|x: i32| x + 1));
    for i in 0..3 {
        assert_eq!(Ok(true), tx.send(i));
    }
    tx.close().unwrap();
    std::mem::drop(tx);
    assert_eq!(Ok(1), rx.recv());
    assert_eq!(Ok(2), rx.recv());
    assert_eq!(Ok(3), rx.recv());
    assert!(rx.recv().is_err());
}

#[test]
fn send_says_when_the_chain_has_stopped() {
    let (mut tx, rx) = transducing_channel(transducers::take(2));
    assert_eq!(Ok(true), tx.send(10u8));
    assert_eq!(Ok(false), tx.send(20u8));
    assert_eq!(Ok(false), tx.send(30u8));
    tx.close().unwrap();
    std::mem::drop(tx);
    let got: Vec<u8> = rx.iter().collect();
    assert_eq!(vec![10, 20], got);
}

#[test]
fn send_after_stop_does_not_reach_the_chain() {
    let (mut tx, rx) = transducing_channel(transducers::take_while(|x: &u8| *x < 5));
    assert_eq!(Ok(true), tx.send(1u8));
    assert_eq!(Ok(false), tx.send(9u8));
    assert_eq!(Ok(false), tx.send(2u8));
    std::mem::drop(tx);
    let got: Vec<u8> = rx.iter().collect();
    assert_eq!(vec![1], got);
}

#[test]
fn send_fails_once_the_receiver_is_gone() {
    let (mut tx, rx) = transducing_channel(transducers::map(|x: u8| x + 1));
    assert_eq!(Ok(true), tx.send(1u8));
    std::mem::drop(rx);
    let refused = tx.send(2u8);
    assert!(refused.is_err());
    assert_eq!(3, refused.unwrap_err().0);
    assert_eq!(Ok(false), tx.send(3u8));
    assert!(tx.close().is_ok());
}

#[test]
fn the_error_passes_through_every_stage() {
    let transducer = compose(
        transducers::filter(|x: &u8| *x > 0),
        compose(transducers::map(|x: u8| x * 2), transducers::drop(1)),
    );
    let (mut tx, rx) = transducing_channel(transducer);
    assert_eq!(Ok(true), tx.send(1u8));
    assert_eq!(Ok(true), tx.send(2u8));
    assert_eq!(Ok(4), rx.recv());
    std::mem::drop(rx);
    assert_eq!(Ok(true), tx.send(0u8));
    let refused = tx.send(5u8);
    assert_eq!(10, refused.unwrap_err().0);
}

#[test]
fn close_flushes_what_a_stage_holds() {
    let (mut tx, rx) = transducing_channel(transducers::partition_all(2));
    for i in 1..6u8 {
        assert_eq!(Ok(true), tx.send(i));
    }
    assert_eq!(Ok(vec![1, 2]), rx.try_recv());
    assert_eq!(Ok(vec![3, 4]), rx.try_recv());
    assert!(rx.try_recv().is_err());
    tx.close().unwrap();
    assert_eq!(Ok(vec![5]), rx.try_recv());
    assert!(rx.try_recv().is_err());
}

#[test]
fn close_twice_flushes_once() {
    let (mut tx, rx) = transducing_channel(transducers::partition_all(2));
    assert_eq!(Ok(true), tx.send(1u8));
    assert!(tx.close().is_ok());
    assert!(tx.close().is_ok());
    assert_eq!(Ok(false), tx.send(2u8));
    std::mem::drop(tx);
    let got: Vec<Vec<u8>> = rx.iter().collect();
    assert_eq!(vec![vec![1u8]], got);
}

#[test]
fn close_reports_a_flush_the_channel_refuses() {
    let (mut tx, rx) = transducing_channel(transducers::partition_all(2));
    assert_eq!(Ok(true), tx.send(1u8));
    std::mem::drop(rx);
    let refused = tx.close();
    assert_eq!(vec![1u8], refused.unwrap_err().0);
}

#[test]
fn dropping_the_sender_does_not_flush() {
    let (mut tx, rx) = transducing_channel(transducers::partition_all(2));
    assert_eq!(Ok(true), tx.send(1u8));
    std::mem::drop(tx);
    assert!(rx.recv().is_err());
}

#[test]
fn functor_law_on_the_channel_driver() {
    let f = |x: i32| x * x - 1;
    let input: Vec<i32> = vec![-3, 0, 4, 9];
    let direct: Vec<i32> = input.iter().map(|x| f(*x)).collect();
    let (mut tx, rx) = transducing_channel(transducers::map(f));
    for x in input {
        assert_eq!(Ok(true), tx.send(x));
    }
    tx.close().unwrap();
    std::mem::drop(tx);
    let driven: Vec<i32> = rx.iter().collect();
    assert_eq!(direct, driven);
}
