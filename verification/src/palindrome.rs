//! Decimal palindromes: whether a number's digit sequence reads the same
//! forwards and backwards.

use vstd::prelude::*;

verus! {

/// The decimal digits of `n`, least significant first. Zero has no digits.
pub open spec fn dec_digits(n: nat) -> Seq<u32>
    decreases n,
{
    if n == 0 {
        Seq::empty()
    } else {
        seq![(n % 10) as u32] + dec_digits(n / 10)
    }
}

/// A sequence that reads identically forwards and backwards.
pub open spec fn reads_same_both_ways(s: Seq<u32>) -> bool {
    forall|i: int| 0 <= i < s.len() ==> #[trigger] s[i] == s[s.len() - 1 - i]
}

/// Law: reading the same both ways is exactly equality with the reversal.
pub proof fn lemma_reads_same_is_reverse(s: Seq<u32>)
    ensures
        reads_same_both_ways(s) <==> s == s.reverse(),
{
    if reads_same_both_ways(s) {
        assert(s =~= s.reverse());
    }
    if s == s.reverse() {
        assert forall|i: int| 0 <= i < s.len() implies #[trigger] s[i] == s[s.len() - 1 - i] by {
            assert(s.reverse()[i] == s[s.len() - 1 - i]);
        }
    }
}

/// Law: zero and the single-digit numbers are palindromes.
pub proof fn lemma_small_palindrome(n: nat)
    requires
        n < 10,
    ensures
        reads_same_both_ways(dec_digits(n)),
{
    if n > 0 {
        assert(n / 10 == 0);
        assert(dec_digits(0) == Seq::<u32>::empty());
        assert(dec_digits(n) =~= seq![(n % 10) as u32]);
    }
}

/// Returns true if `n` is a decimal palindrome, false otherwise.
pub fn is_palindrome(n: u32) -> (r: bool)
    ensures
        r == reads_same_both_ways(dec_digits(n as nat)),
{
    let mut digits: Vec<u32> = Vec::new();
    let mut temp = n;
    proof {
        assert(dec_digits(n as nat) =~= digits@ + dec_digits(n as nat));
    }
    while temp > 0
        invariant
            dec_digits(n as nat) == digits@ + dec_digits(temp as nat),
        decreases temp,
    {
        let ghost pre = digits@;
        digits.push(temp % 10);
        proof {
            assert(dec_digits(temp as nat) == seq![(temp as nat % 10) as u32] + dec_digits(
                temp as nat / 10,
            ));
            assert(digits@ =~= pre + seq![(temp as nat % 10) as u32]);
            assert(digits@ + dec_digits(temp as nat / 10) =~= pre + dec_digits(temp as nat));
        }
        temp = temp / 10;
    }
    proof {
        assert(digits@ =~= dec_digits(n as nat));
    }
    let len = digits.len();
    let mut i: usize = 0;
    while i < len
        invariant
            len == digits@.len(),
            i <= len,
            digits@ == dec_digits(n as nat),
            forall|j: int| 0 <= j < i ==> #[trigger] digits@[j] == digits@[len - 1 - j],
        decreases len - i,
    {
        if digits[i] != digits[len - 1 - i] {
            return false;
        }
        i += 1;
    }
    true
}

} // verus!
