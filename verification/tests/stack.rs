use bf_interp::instruction::STACK_SIZE;
use bf_interp::stack::BracketStack;

#[test]
fn new_stack_is_empty() {
    let stack = BracketStack::new();
    assert!(stack.is_empty());
    assert!(!stack.is_full());
    assert_eq!(stack.len(), 0);
}

#[test]
fn last_pushed_is_first_popped() {
    let mut stack = BracketStack::new();
    stack.push(3);
    stack.push(14);
    stack.push(15);
    assert_eq!(stack.len(), 3);
    assert_eq!(stack.pop(), 15);
    assert_eq!(stack.pop(), 14);
    stack.push(92);
    assert_eq!(stack.pop(), 92);
    assert_eq!(stack.pop(), 3);
    assert!(stack.is_empty());
}

#[test]
fn stack_is_full_at_its_capacity() {
    let mut stack = BracketStack::new();
    for slot in 0..STACK_SIZE {
        assert!(!stack.is_full());
        stack.push(slot);
    }
    assert!(stack.is_full());
    assert_eq!(stack.len(), STACK_SIZE);
    assert_eq!(stack.pop(), STACK_SIZE - 1);
    assert!(!stack.is_full());
}
