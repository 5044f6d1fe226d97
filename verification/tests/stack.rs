use treiber_stack::op::{PopOp, Progress, PushOp};
use treiber_stack::stack::LockFreeStack;

/// One worker's push, taken one step further. Gives back what is left of it.
fn step_push(stack: &mut LockFreeStack<u32>, op: PushOp<u32>) -> Option<PushOp<u32>> {
    match op.step(stack) {
        Progress::Pending(next) => Some(next),
        Progress::Done(()) => None,
    }
}

#[test]
fn test_push() {
    let mut stack = LockFreeStack::new();
    // Ten workers, each with 100000 pushes of its own number; one step of
    // each in turn, so that every exchange meets a head that the others moved.
    let mut left = [100000u32; 10];
    let mut ops: Vec<Option<PushOp<u32>>> = (0..10).map(|_| None).collect();
    let mut busy = 10;
    while busy > 0 {
        busy = 0;
        for i in 0..10 {
            let op = match ops[i].take() {
                Some(op) => op,
                None if left[i] > 0 => {
                    left[i] -= 1;
                    PushOp::new(i as u32)
                }
                None => continue,
            };
            ops[i] = step_push(&mut stack, op);
            busy += 1;
        }
    }
    assert_eq!(stack.len(), 1_000_000)
}

#[test]
fn test_pop() {
    let mut stack = LockFreeStack::new();
    for i in 0..100000 {
        stack.push(i);
    }
    let mut left = [100000u32; 10];
    let mut ops: Vec<Option<PopOp>> = (0..10).map(|_| None).collect();
    let mut busy = 10;
    while busy > 0 {
        busy = 0;
        for i in 0..10 {
            let op = match ops[i].take() {
                Some(op) => op,
                None if left[i] > 0 => {
                    left[i] -= 1;
                    PopOp::new()
                }
                None => continue,
            };
            ops[i] = match op.step(&mut stack) {
                Progress::Pending(next) => Some(next),
                Progress::Done(_) => None,
            };
            busy += 1;
        }
    }
    assert_eq!(stack.len(), 0)
}

#[test]
fn pop_on_a_new_stack_gives_none() {
    let mut stack: LockFreeStack<u32> = LockFreeStack::new();
    assert_eq!(stack.pop(), None);
    assert_eq!(stack.len(), 0);
}

#[test]
fn three_pushes_come_back_last_first() {
    let mut stack = LockFreeStack::new();
    stack.push(1u32);
    stack.push(2u32);
    stack.push(3u32);
    assert_eq!(stack.len(), 3);
    assert_eq!(stack.pop(), Some(3));
    assert_eq!(stack.pop(), Some(2));
    assert_eq!(stack.pop(), Some(1));
    assert_eq!(stack.pop(), None);
    assert_eq!(stack.len(), 0);
}

#[test]
fn len_follows_every_push_and_pop() {
    let mut stack = LockFreeStack::new();
    assert_eq!(stack.len(), 0);
    for i in 0..5u64 {
        stack.push(i);
        assert_eq!(stack.len(), i + 1);
    }
    for i in (0..5u64).rev() {
        assert_eq!(stack.pop(), Some(i));
        assert_eq!(stack.len(), i);
    }
}

#[test]
fn an_empty_stack_stays_empty_under_pops() {
    let mut stack = LockFreeStack::new();
    stack.push(9u8);
    assert_eq!(stack.pop(), Some(9));
    assert_eq!(stack.len(), 0);
    for _ in 0..100 {
        assert_eq!(stack.pop(), None);
        assert_eq!(stack.len(), 0);
    }
}

#[test]
fn a_drained_stack_takes_pushes_again() {
    let mut stack = LockFreeStack::new();
    stack.push(1u32);
    stack.push(2u32);
    assert_eq!(stack.pop(), Some(2));
    assert_eq!(stack.pop(), Some(1));
    assert_eq!(stack.pop(), None);
    stack.push(3u32);
    stack.push(4u32);
    assert_eq!(stack.len(), 2);
    assert_eq!(stack.pop(), Some(4));
    stack.push(5u32);
    assert_eq!(stack.pop(), Some(5));
    assert_eq!(stack.pop(), Some(3));
    assert_eq!(stack.pop(), None);
}

#[test]
fn elements_are_moved_in_and_out() {
    let mut stack: LockFreeStack<String> = LockFreeStack::new();
    stack.push(String::from("first"));
    stack.push(String::from("second"));
    let top: String = stack.pop().unwrap();
    assert_eq!(top, "second");
    assert_eq!(stack.pop(), Some(String::from("first")));
    assert_eq!(stack.pop(), None);
}

#[test]
fn every_pushed_value_is_drained_once() {
    let mut stack = LockFreeStack::new();
    for v in 0..1000u32 {
        stack.push(v);
    }
    assert_eq!(stack.len(), 1000);
    let mut seen = vec![0u32; 1000];
    while let Some(v) = stack.pop() {
        seen[v as usize] += 1;
    }
    assert!(seen.iter().all(|&n| n == 1));
    assert_eq!(stack.len(), 0);
}
