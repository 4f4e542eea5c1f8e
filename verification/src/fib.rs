use vstd::prelude::*;

verus! {

/// The Fibonacci sequence: 0, 1, 1, 2, 3, 5, ...
pub open spec fn fib(n: nat) -> nat
    decreases n,
{
    if n == 0 {
        0
    } else if n == 1 {
        1
    } else {
        fib((n - 1) as nat) + fib((n - 2) as nat)
    }
}

/// The largest index whose Fibonacci number fits in 32 bits.
pub const MAX_INDEX: u32 = 47;

/// The sequence never falls.
pub proof fn lemma_fib_monotonic(i: nat, j: nat)
    requires
        i <= j,
    ensures
        fib(i) <= fib(j),
    decreases j,
{
    if i < j {
        lemma_fib_monotonic(i, (j - 1) as nat);
        if j >= 2 {
            assert(fib(j) == fib((j - 1) as nat) + fib((j - 2) as nat));
        }
    }
}

/// The Fibonacci number of the largest index is 2971215073.
pub proof fn lemma_fib_last()
    ensures
        fib(MAX_INDEX as nat) == 2971215073,
{
    assert(fib(0) == 0);
    assert(fib(1) == 1);
    assert(fib(2) == 1);
    assert(fib(3) == 2);
    assert(fib(4) == 3);
    assert(fib(5) == 5);
    assert(fib(6) == 8);
    assert(fib(7) == 13);
    assert(fib(8) == 21);
    assert(fib(9) == 34);
    assert(fib(10) == 55);
    assert(fib(11) == 89);
    assert(fib(12) == 144);
    assert(fib(13) == 233);
    assert(fib(14) == 377);
    assert(fib(15) == 610);
    assert(fib(16) == 987);
    assert(fib(17) == 1597);
    assert(fib(18) == 2584);
    assert(fib(19) == 4181);
    assert(fib(20) == 6765);
    assert(fib(21) == 10946);
    assert(fib(22) == 17711);
    assert(fib(23) == 28657);
    assert(fib(24) == 46368);
    assert(fib(25) == 75025);
    assert(fib(26) == 121393);
    assert(fib(27) == 196418);
    assert(fib(28) == 317811);
    assert(fib(29) == 514229);
    assert(fib(30) == 832040);
    assert(fib(31) == 1346269);
    assert(fib(32) == 2178309);
    assert(fib(33) == 3524578);
    assert(fib(34) == 5702887);
    assert(fib(35) == 9227465);
    assert(fib(36) == 14930352);
    assert(fib(37) == 24157817);
    assert(fib(38) == 39088169);
    assert(fib(39) == 63245986);
    assert(fib(40) == 102334155);
    assert(fib(41) == 165580141);
    assert(fib(42) == 267914296);
    assert(fib(43) == 433494437);
    assert(fib(44) == 701408733);
    assert(fib(45) == 1134903170);
    assert(fib(46) == 1836311903);
    assert(fib(47) == 2971215073);
}

/// The Fibonacci number of `n`, by the defining recursion.
pub fn fibonacci(n: u32) -> (value: u32)
    requires
        n <= MAX_INDEX,
    ensures
        value == fib(n as nat),
    decreases n,
{
    if n == 0 {
        0
    } else if n == 1 {
        1
    } else {
        proof {
            lemma_fib_last();
            lemma_fib_monotonic(n as nat, MAX_INDEX as nat);
        }
        fibonacci(n - 1) + fibonacci(n - 2)
    }
}

/// Replaces each cell of `arr` by the Fibonacci number of what it held.
pub fn process_shared_buffer(arr: &mut [u32])
    requires
        forall|i: int| 0 <= i < old(arr)@.len() ==> old(arr)@[i] <= MAX_INDEX,
    ensures
        final(arr)@.len() == old(arr)@.len(),
        forall|i: int|
            0 <= i < old(arr)@.len() ==> final(arr)@[i] == fib(old(arr)@[i] as nat),
{
    let n = arr.len();
    let mut i: usize = 0;
    while i < n
        invariant
            i <= n,
            arr@.len() == n,
            n == old(arr)@.len(),
            forall|k: int| 0 <= k < i ==> arr@[k] == fib(old(arr)@[k] as nat),
            forall|k: int| i <= k < n ==> arr@[k] == old(arr)@[k] && arr@[k] <= MAX_INDEX,
        decreases n - i,
    {
        let value = fibonacci(arr[i]);
        arr[i] = value;
        i = i + 1;
    }
}

} // verus!
