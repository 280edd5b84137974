use executorch_kernels::unroll::forced_unroll;

// The recursive case ForcedUnroll<n> unwinds to f(0); f(1); ...; f(n-1)
// in ascending order (recurse first, then call f(n - 1)).
#[test]
fn forced_unroll_calls_ascending() {
    let mut calls = Vec::new();
    forced_unroll::<4, _>(|i| calls.push(i));
    assert_eq!(calls, vec![0, 1, 2, 3]);

    let mut calls = Vec::new();
    forced_unroll::<7, _>(|i| calls.push(i));
    assert_eq!(calls, (0..7).collect::<Vec<_>>());

    // Header example: ForcedUnroll<4>{}(f) accumulating a sum.
    let mut sum = 0usize;
    forced_unroll::<4, _>(|i| sum += i + 1);
    assert_eq!(sum, 1 + 2 + 3 + 4);
}

// The ForcedUnroll<1> base case invokes f(0) exactly once.
#[test]
fn forced_unroll_base_case_single_call() {
    let mut calls = Vec::new();
    forced_unroll::<1, _>(|i| calls.push(i));
    assert_eq!(calls, vec![0]);
}

#[test]
fn forced_unroll_zero_calls_nothing() {
    let mut calls: Vec<usize> = Vec::new();
    forced_unroll::<0, _>(|i| calls.push(i));
    assert!(calls.is_empty());
}
