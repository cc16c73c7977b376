use lockfree::hp::HazardPointerArray;
use lockfree::treiber_stack::TreiberStack;

#[test]
fn treiber_stack_test_basic_operations() {
    let mut array = HazardPointerArray::new();
    let mut stack = TreiberStack::new();
    stack.push(-1);
    stack.push(2);
    stack.push(33);
    let mut pop_results = Vec::new();
    let mut guard = array.register_thread().ok().unwrap();
    pop_results.push(stack.pop(&mut guard, &mut array).unwrap());
    pop_results.push(stack.pop(&mut guard, &mut array).unwrap());
    pop_results.push(stack.pop(&mut guard, &mut array).unwrap());
    assert_eq!(pop_results, vec![33, 2, -1]);
}

#[test]
fn treiber_stack_push_then_pop_round_trip() {
    let mut array = HazardPointerArray::new();
    let mut stack: TreiberStack<u32> = TreiberStack::new();
    let mut guard = array.register_thread().ok().unwrap();
    assert_eq!(stack.pop(&mut guard, &mut array), None);
    stack.push(9);
    assert_eq!(stack.pop(&mut guard, &mut array), Some(9));
    assert_eq!(stack.pop(&mut guard, &mut array), None);
}

#[test]
fn treiber_stack_lifo_and_conservation() {
    let mut array = HazardPointerArray::new();
    let mut stack: TreiberStack<usize> = TreiberStack::new();
    let mut guard = array.register_thread().ok().unwrap();
    let mut popped = Vec::new();
    for i in 0..64usize {
        stack.push(i);
        if i % 4 == 3 {
            // the value pushed last comes out first
            assert_eq!(stack.pop(&mut guard, &mut array), Some(i));
            popped.push(i);
        }
    }
    while let Some(v) = stack.pop(&mut guard, &mut array) {
        popped.push(v);
    }
    popped.sort();
    assert_eq!(popped, (0..64usize).collect::<Vec<_>>());
}
