use treiber_stack::stack::LockFreeStack;

#[test]
fn a_new_stack_has_no_head() {
    let stack: LockFreeStack<u32> = LockFreeStack::new();
    assert_eq!(stack.load_head(), None);
}

#[test]
fn try_push_links_in_front_of_the_loaded_head() {
    let mut stack = LockFreeStack::new();
    let empty = stack.load_head();
    assert_eq!(stack.try_push(10u32, empty), Ok(()));
    let first = stack.load_head();
    assert_eq!(first, Some(0));
    assert_eq!(stack.read_next(0), None);
    assert_eq!(stack.try_push(20u32, first), Ok(()));
    assert_eq!(stack.load_head(), Some(1));
    assert_eq!(stack.read_next(1), Some(0));
    assert_eq!(stack.len(), 2);
}

#[test]
fn try_push_hands_the_element_back_when_head_has_moved() {
    let mut stack = LockFreeStack::new();
    let stale = stack.load_head();
    stack.push(1u32);
    assert_eq!(stack.try_push(2u32, stale), Err(2));
    assert_eq!(stack.len(), 1);
    assert_eq!(stack.load_head(), Some(0));
    let fresh = stack.load_head();
    assert_eq!(stack.try_push(2u32, fresh), Ok(()));
    assert_eq!(stack.pop(), Some(2));
    assert_eq!(stack.pop(), Some(1));
}

#[test]
fn try_pop_takes_the_node_that_head_names() {
    let mut stack = LockFreeStack::new();
    stack.push(5u32);
    stack.push(6u32);
    let head = stack.load_head().unwrap();
    let next = stack.read_next(head);
    assert_eq!(next, Some(0));
    assert_eq!(stack.try_pop(head, next), Some(6));
    assert_eq!(stack.load_head(), Some(0));
    assert_eq!(stack.len(), 1);
}

#[test]
fn try_pop_does_nothing_when_head_has_moved() {
    let mut stack = LockFreeStack::new();
    stack.push(5u32);
    let head = stack.load_head().unwrap();
    let next = stack.read_next(head);
    stack.push(6u32);
    assert_eq!(stack.try_pop(head, next), None);
    assert_eq!(stack.len(), 2);
    assert_eq!(stack.pop(), Some(6));
    assert_eq!(stack.pop(), Some(5));
}

#[test]
fn try_pop_of_a_node_already_taken_does_nothing() {
    let mut stack = LockFreeStack::new();
    stack.push(5u32);
    stack.push(6u32);
    let head = stack.load_head().unwrap();
    let next = stack.read_next(head);
    assert_eq!(stack.try_pop(head, next), Some(6));
    assert_eq!(stack.try_pop(head, next), None);
    assert_eq!(stack.len(), 1);
    assert_eq!(stack.pop(), Some(5));
}

#[test]
fn a_destroyed_node_reads_as_no_link() {
    let mut stack = LockFreeStack::new();
    stack.push(1u32);
    stack.push(2u32);
    assert_eq!(stack.read_next(1), Some(0));
    assert_eq!(stack.pop(), Some(2));
    assert_eq!(stack.read_next(1), None);
    assert_eq!(stack.read_next(0), None);
    assert_eq!(stack.read_next(17), None);
}

#[test]
fn a_slot_number_is_given_out_once() {
    let mut stack = LockFreeStack::new();
    stack.push(1u32);
    let old_head = stack.load_head();
    assert_eq!(stack.pop(), Some(1));
    stack.push(2u32);
    let new_head = stack.load_head();
    assert_eq!(old_head, Some(0));
    assert_eq!(new_head, Some(1));
    assert_eq!(stack.read_next(1), None);
}

#[test]
fn a_stale_pop_cannot_succeed_against_a_newer_node() {
    let mut stack = LockFreeStack::new();
    stack.push(1u32);
    stack.push(2u32);
    // One pop loads the head and reads its link, then falls behind.
    let head = stack.load_head().unwrap();
    let next = stack.read_next(head);
    // Meanwhile both elements are taken and two others are pushed.
    assert_eq!(stack.pop(), Some(2));
    assert_eq!(stack.pop(), Some(1));
    stack.push(3u32);
    stack.push(4u32);
    // The late exchange finds another node at the head and changes nothing.
    assert_eq!(stack.try_pop(head, next), None);
    assert_eq!(stack.len(), 2);
    assert_eq!(stack.pop(), Some(4));
    assert_eq!(stack.pop(), Some(3));
    assert_eq!(stack.pop(), None);
}
