use stainless_git::promise::{PollStep, Promise};

#[test]
fn resolve_then_poll_hands_value_over() {
    let (mut promise, resolver) = Promise::new();
    let wake = resolver.resolve(&mut promise, 42u32);
    assert!(!wake);
    match promise.poll() {
        PollStep::Ready(v) => assert_eq!(v, 42),
        PollStep::RegisterWaiter => panic!("value was already resolved"),
    }
}

#[test]
fn poll_before_resolve_registers_waiter() {
    let (mut promise, resolver) = Promise::new();
    assert!(matches!(promise.poll(), PollStep::RegisterWaiter));
    // The registered waiter must be woken by the resolve step.
    let wake = resolver.resolve(&mut promise, "done");
    assert!(wake);
    match promise.poll() {
        PollStep::Ready(v) => assert_eq!(v, "done"),
        PollStep::RegisterWaiter => panic!("value was already resolved"),
    }
}

#[test]
fn resolver_clone_resolves_the_same_promise() {
    let (mut promise, resolver) = Promise::new();
    let second = resolver.clone();
    let wake = second.resolve(&mut promise, 7u64);
    assert!(!wake);
    assert!(matches!(promise.poll(), PollStep::Ready(7)));
}

#[test]
fn second_resolve_overwrites_value() {
    let (mut promise, resolver) = Promise::new();
    resolver.resolve(&mut promise, 1u8);
    resolver.resolve(&mut promise, 2u8);
    assert!(matches!(promise.poll(), PollStep::Ready(2)));
}
