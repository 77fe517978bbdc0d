//! The Fibonacci prefix: the first `n` Fibonacci numbers as a vector.

use vstd::prelude::*;

verus! {

/// The Fibonacci numbers: 0, 1, 1, 2, 3, 5, ...
pub open spec fn fib_nat(n: nat) -> nat
    decreases n,
{
    if n == 0 {
        0
    } else if n == 1 {
        1
    } else {
        fib_nat((n - 1) as nat) + fib_nat((n - 2) as nat)
    }
}

/// The Fibonacci numbers never shrink from one index to the next.
proof fn lemma_fib_step(n: nat)
    ensures
        fib_nat(n) <= fib_nat(n + 1),
    decreases n,
{
    if n >= 2 {
        lemma_fib_step((n - 1) as nat);
    }
}

/// The Fibonacci numbers are monotone in the index.
pub proof fn lemma_fib_mono(i: nat, j: nat)
    requires
        i <= j,
    ensures
        fib_nat(i) <= fib_nat(j),
    decreases j - i,
{
    if i < j {
        lemma_fib_step(i);
        lemma_fib_mono(i + 1, j);
    }
}

/// Returns the first `n` Fibonacci numbers.
///
/// The bound on `fib_nat(n - 1)` only keeps the largest requested number
/// inside the machine word.
pub fn fib(n: u32) -> (r: Vec<u32>)
    requires
        n == 0 || fib_nat((n - 1) as nat) <= u32::MAX,
    ensures
        r@.len() == n,
        forall|i: int| 0 <= i < n ==> r@[i] == fib_nat(i as nat),
{
    let mut result: Vec<u32> = Vec::new();
    if n == 0 {
        return result;
    }
    result.push(0);
    if n == 1 {
        return result;
    }
    result.push(1);
    let mut i: usize = 2;
    while i < n as usize
        invariant
            2 <= i <= n,
            n >= 2,
            fib_nat((n - 1) as nat) <= u32::MAX,
            result@.len() == i,
            forall|k: int| 0 <= k < i ==> result@[k] == fib_nat(k as nat),
        decreases n - i,
    {
        proof {
            lemma_fib_mono(i as nat, (n - 1) as nat);
        }
        let next = result[i - 1] + result[i - 2];
        result.push(next);
        i += 1;
    }
    result
}

/// Law: a sequence of the first `n` Fibonacci numbers has length `n`, starts
/// 0, 1 when `n >= 2`, and each later element is the sum of the two before
/// it.
pub proof fn lemma_fib_seq(s: Seq<u32>, n: nat)
    requires
        s.len() == n,
        forall|i: int| 0 <= i < n ==> s[i] == fib_nat(i as nat),
    ensures
        n >= 1 ==> s[0] == 0,
        n >= 2 ==> s[1] == 1,
        forall|i: int| 2 <= i < n ==> #[trigger] s[i] == s[i - 1] + s[i - 2],
{
    assert forall|i: int| 2 <= i < n implies #[trigger] s[i] == s[i - 1] + s[i - 2] by {
        assert(s[i] == fib_nat(i as nat));
        assert(fib_nat(i as nat) == fib_nat((i - 1) as nat) + fib_nat((i - 2) as nat));
    }
}

} // verus!
