use lockfree::elimination::{
    offer_result, pop_decision, push_decision, take_answer, EliminationArray, EliminationError, PopStep, EMPTY, POP,
};
use lockfree::pool::NodePool;

#[test]
fn pop_without_pusher_finds_no_rendezvous() {
    let mut array = EliminationArray::new();
    assert_eq!(array.try_pop(), Err(EliminationError::NoRendezvous));
    // the withdrawn request leaves every slot empty
    for i in 0..8 {
        assert_eq!(array.slot(i), EMPTY);
    }
    assert_eq!(array.try_pop(), Err(EliminationError::NoRendezvous));
}

#[test]
fn push_without_popper_takes_its_offer_back() {
    let mut array = EliminationArray::new();
    assert_eq!(array.try_push(8), Err(EliminationError::NoRendezvous));
    for i in 0..8 {
        assert_eq!(array.slot(i), EMPTY);
    }
}

#[test]
fn pop_data_without_offer_leaves_the_pool_alone() {
    let mut array = EliminationArray::new();
    let mut pool: NodePool<u32> = NodePool::new();
    let a = pool.allocate(5, 0, 0);
    assert_eq!(array.try_pop_data(&mut pool), Err(EliminationError::NoRendezvous));
    assert!(pool.is_live(a));
}

#[test]
fn push_decision_fixes_the_written_word() {
    assert_eq!(push_decision(EMPTY, 6), Some(6));
    assert_eq!(push_decision(POP, 6), Some(7));
    assert_eq!(push_decision(4, 6), None);
    assert_eq!(push_decision(5, 6), None);
}

#[test]
fn offer_result_is_no_rendezvous_only_after_withdrawal() {
    assert_eq!(offer_result(true, false), Ok(()));
    assert_eq!(offer_result(false, false), Ok(()));
    assert_eq!(offer_result(false, true), Err(EliminationError::NoRendezvous));
}

#[test]
fn pop_decision_splits_the_observed_word() {
    assert_eq!(pop_decision(EMPTY), PopStep::Request);
    assert_eq!(pop_decision(POP), PopStep::Skip);
    assert_eq!(pop_decision(10), PopStep::Take(10));
    assert_eq!(pop_decision(11), PopStep::Skip);
}

#[test]
fn take_answer_clears_the_tag() {
    assert_eq!(take_answer(7), Ok(6));
    assert_eq!(take_answer(6), Ok(6));
    assert_eq!(take_answer(1), Err(EliminationError::NoRendezvous));
}
