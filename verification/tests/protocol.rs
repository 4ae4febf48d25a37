use rs_transducers::applications::channels::{answer_of, signal_of, SenderReducer};
use rs_transducers::applications::iter::{enqueue, IterReducer};
use rs_transducers::applications::vec::VecReducer;
use rs_transducers::transducers;
use rs_transducers::{compose, feed, Reducing, StepResult, Transducer};
use std::collections::VecDeque;
use std::sync::mpsc::{channel, SendError};

#[test]
fn a_chain_is_driven_by_hand() {
    let mut chain = transducers::map(|x: u8| x + 1).new(VecReducer::new());
    chain.init();
    assert_eq!(Ok(StepResult::Continue), chain.step(1));
    assert_eq!(Ok(StepResult::Continue), chain.step(2));
    assert_eq!(Ok(()), chain.complete());
    assert_eq!(vec![2, 3], chain.drain());
}

#[test]
fn take_answers_stop_with_the_last_value() {
    let mut chain = transducers::take(2).new(VecReducer::new());
    assert_eq!(Ok(StepResult::Continue), chain.step('a'));
    assert_eq!(Ok(StepResult::Stop), chain.step('b'));
    assert_eq!(Ok(()), chain.complete());
    assert_eq!(vec!['a', 'b'], chain.drain());
}

#[test]
fn take_zero_answers_stop_at_once() {
    let mut chain = transducers::take(0).new(VecReducer::new());
    assert_eq!(Ok(StepResult::Stop), chain.step('a'));
    assert_eq!(Ok(()), chain.complete());
    assert_eq!(Vec::<char>::new(), chain.drain());
}

#[test]
fn take_while_answers_stop_at_the_failure() {
    let mut chain = transducers::take_while(|x: &u8| *x < 3).new(VecReducer::new());
    assert_eq!(Ok(StepResult::Continue), chain.step(1));
    assert_eq!(Ok(StepResult::Continue), chain.step(2));
    assert_eq!(Ok(StepResult::Stop), chain.step(3));
    assert_eq!(Ok(()), chain.complete());
    assert_eq!(vec![1, 2], chain.drain());
}

#[test]
fn stop_from_downstream_passes_through_every_stage() {
    let transducer = compose(
        transducers::take(1),
        compose(
            transducers::partition(2),
            compose(transducers::drop(1), transducers::filter(|x: &u8| *x > 0)),
        ),
    );
    let mut chain = transducer.new(VecReducer::new());
    assert_eq!(Ok(StepResult::Continue), chain.step(0));
    assert_eq!(Ok(StepResult::Continue), chain.step(1));
    assert_eq!(Ok(StepResult::Continue), chain.step(2));
    assert_eq!(Ok(StepResult::Stop), chain.step(3));
    assert_eq!(Ok(()), chain.complete());
    assert_eq!(vec![vec![2u8, 3]], chain.drain());
}

#[test]
fn drain_hands_over_what_came_since_the_last_drain() {
    let mut chain = transducers::partition_all(2).new(IterReducer::new());
    assert_eq!(Ok(StepResult::Continue), chain.step(1u8));
    assert_eq!(Vec::<Vec<u8>>::new(), chain.drain());
    assert_eq!(Ok(StepResult::Continue), chain.step(2u8));
    assert_eq!(vec![vec![1u8, 2]], chain.drain());
    assert_eq!(Vec::<Vec<u8>>::new(), chain.drain());
    assert_eq!(Ok(StepResult::Continue), chain.step(3u8));
    assert_eq!(Ok(()), chain.complete());
    assert_eq!(vec![vec![3u8]], chain.drain());
}

#[test]
fn a_channel_sink_holds_nothing_back() {
    let (tx, rx) = channel();
    let mut chain = transducers::map(|x: u8| x * 2).new(SenderReducer::new(tx));
    assert_eq!(Ok(StepResult::Continue), chain.step(4));
    assert_eq!(Ok(8), rx.try_recv());
    assert_eq!(Vec::<u8>::new(), chain.drain());
    assert_eq!(Ok(()), chain.complete());
}

#[test]
fn a_channel_sink_fails_with_the_value_it_could_not_send() {
    let (tx, rx) = channel();
    let mut chain = transducers::map(|x: u8| x * 2).new(SenderReducer::new(tx));
    std::mem::drop(rx);
    assert_eq!(Err(SendError(8)), chain.step(4));
    assert_eq!(Ok(()), chain.complete());
}

#[test]
fn feed_runs_until_the_source_is_dry() {
    let mut chain = transducers::drop(1).new(VecReducer::new());
    assert_eq!(Ok(StepResult::Continue), feed(vec![1u8, 2, 3].into_iter(), &mut chain));
    assert_eq!(Ok(StepResult::Continue), feed(vec![4u8].into_iter(), &mut chain));
    assert_eq!(Ok(()), chain.complete());
    assert_eq!(vec![2, 3, 4], chain.drain());
}

#[test]
fn feed_stops_with_the_chain() {
    let mut source = vec![1u8, 2, 3, 4].into_iter();
    let mut chain = transducers::take(2).new(VecReducer::new());
    assert_eq!(Ok(StepResult::Stop), feed(&mut source, &mut chain));
    assert_eq!(Some(3), source.next());
    assert_eq!(Ok(()), chain.complete());
    assert_eq!(vec![1, 2], chain.drain());
}

#[test]
fn feed_stops_at_the_first_failure() {
    let (tx, rx) = channel();
    let mut source = vec![1u8, 2, 3, 4].into_iter();
    let mut chain = transducers::take(3).new(SenderReducer::new(tx));
    std::mem::drop(rx);
    assert_eq!(Err(SendError(1)), feed(&mut source, &mut chain));
    assert_eq!(Some(2), source.next());
}

#[test]
fn enqueue_appends_in_order() {
    let mut queue: VecDeque<u8> = VecDeque::new();
    queue.push_back(1);
    enqueue(vec![2u8, 3].into_iter(), &mut queue);
    enqueue(Vec::<u8>::new().into_iter(), &mut queue);
    assert_eq!(vec![1, 2, 3], queue.into_iter().collect::<Vec<u8>>());
}

#[test]
fn a_sink_passes_the_error_of_the_channel_on() {
    assert_eq!(Ok(StepResult::Continue), signal_of::<u8>(Ok(())));
    assert_eq!(Err(SendError(7u8)), signal_of(Err(SendError(7u8))));
}

#[test]
fn a_sender_answers_whether_the_chain_takes_more() {
    assert_eq!(Ok(true), answer_of::<()>(Ok(StepResult::Continue)));
    assert_eq!(Ok(false), answer_of::<()>(Ok(StepResult::Stop)));
    assert_eq!(Err("gone"), answer_of(Err("gone")));
}

#[test]
fn a_value_that_is_not_passed_on_is_answered_with_continue() {
    let mut chain = transducers::filter(|x: &u8| *x > 5).new(VecReducer::new());
    assert_eq!(Ok(StepResult::Continue), chain.step(1));
    let mut chain = transducers::remove(|x: &u8| *x > 5).new(VecReducer::new());
    assert_eq!(Ok(StepResult::Continue), chain.step(9));
    let mut chain = transducers::drop(1).new(VecReducer::new());
    assert_eq!(Ok(StepResult::Continue), chain.step(1u8));
    let mut chain = transducers::drop_while(|x: &u8| *x < 5).new(VecReducer::new());
    assert_eq!(Ok(StepResult::Continue), chain.step(1));
    let mut chain = transducers::partition(2).new(VecReducer::new());
    assert_eq!(Ok(StepResult::Continue), chain.step(1u8));
    let mut chain = transducers::mapcat(|_: u8| Vec::<u8>::new()).new(VecReducer::new());
    assert_eq!(Ok(StepResult::Continue), chain.step(1));
    assert_eq!(Ok(()), chain.complete());
    assert_eq!(Vec::<u8>::new(), chain.drain());
}

#[test]
fn a_value_that_is_not_passed_on_does_not_reach_a_broken_channel() {
    let (tx, rx) = channel();
    let mut chain = transducers::filter(|x: &u8| *x > 5).new(SenderReducer::new(tx));
    std::mem::drop(rx);
    assert_eq!(Ok(StepResult::Continue), chain.step(1));
    assert_eq!(Err(SendError(9)), chain.step(9));
    let (tx, rx) = channel();
    let mut chain = transducers::take_while(|x: &u8| *x > 5).new(SenderReducer::new(tx));
    std::mem::drop(rx);
    assert_eq!(Ok(StepResult::Stop), chain.step(1));
    let (tx, rx) = channel();
    let mut chain = transducers::take(0).new(SenderReducer::new(tx));
    std::mem::drop(rx);
    assert_eq!(Ok(StepResult::Stop), chain.step(1u8));
}

#[test]
fn completion_flushes_the_pending_chunk_once() {
    let mut chain = transducers::partition_all(3).new(VecReducer::new());
    assert_eq!(Ok(StepResult::Continue), chain.step(1u8));
    assert_eq!(Ok(StepResult::Continue), chain.step(2u8));
    assert_eq!(Ok(()), chain.complete());
    assert_eq!(vec![vec![1u8, 2]], chain.drain());
    assert_eq!(Vec::<Vec<u8>>::new(), chain.drain());
}
