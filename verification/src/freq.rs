//! The most frequent character of a string, ties broken by whichever
//! character first reaches the winning count in a left-to-right scan.

use vstd::prelude::*;
use vstd::string::StrSliceExecFns;

verus! {

/// How many times `c` occurs in `s`.
pub open spec fn cnt(s: Seq<char>, c: char) -> nat
    decreases s.len(),
{
    if s.len() == 0 {
        0
    } else {
        cnt(s.drop_last(), c) + if s.last() == c {
            1nat
        } else {
            0nat
        }
    }
}

/// Appending one character raises its own count by one and no other.
proof fn lemma_cnt_push(s: Seq<char>, e: char, c: char)
    ensures
        cnt(s.push(e), c) == cnt(s, c) + if e == c {
            1nat
        } else {
            0nat
        },
{
    assert(s.push(e).drop_last() =~= s);
    assert(s.push(e).last() == e);
}

/// A count over a prefix never exceeds the count over the whole string.
proof fn lemma_cnt_take_le(s: Seq<char>, i: int, c: char)
    requires
        0 <= i <= s.len(),
    ensures
        cnt(s.take(i), c) <= cnt(s, c),
    decreases s.len() - i,
{
    if i == s.len() {
        assert(s.take(i) =~= s);
    } else {
        assert(s.take(i + 1) =~= s.take(i).push(s[i]));
        lemma_cnt_push(s.take(i), s[i], c);
        lemma_cnt_take_le(s, i + 1, c);
    }
}

/// The running count after step `j` of a left-to-right scan: how often the
/// character at `j` has been seen in the prefix up to and including `j`.
pub open spec fn running(s: Seq<char>, j: int) -> nat
    recommends
        0 <= j < s.len(),
{
    cnt(s.take(j + 1), s[j])
}

/// Index `j` holds the scan's winner: its running count is never beaten, and
/// `j` is the first index at which that count is reached.
pub open spec fn is_winner_at(s: Seq<char>, j: int) -> bool {
    &&& 0 <= j < s.len()
    &&& forall|k: int| 0 <= k < s.len() ==> running(s, k) <= running(s, j)
    &&& forall|k: int| 0 <= k < j ==> running(s, k) < running(s, j)
}

/// Every character's total count is realised as the running count at its
/// last occurrence.
proof fn lemma_total_is_some_running(s: Seq<char>, c: char)
    requires
        exists|i: int| 0 <= i < s.len() && s[i] == c,
    ensures
        exists|j: int| 0 <= j < s.len() && s[j] == c && running(s, j) == cnt(s, c),
    decreases s.len(),
{
    let last = s.len() - 1;
    if s[last] == c {
        assert(s.take(last + 1) =~= s);
        assert(running(s, last) == cnt(s, c));
    } else {
        let t = s.drop_last();
        let i = choose|i: int| 0 <= i < s.len() && s[i] == c;
        assert(t[i] == c);
        lemma_total_is_some_running(t, c);
        let j = choose|j: int| 0 <= j < t.len() && t[j] == c && running(t, j) == cnt(t, c);
        assert(cnt(s, c) == cnt(t, c));
        assert(t.take(j + 1) =~= s.take(j + 1));
        assert(s[j] == c);
        assert(running(s, j) == cnt(s, c));
    }
}

/// Law: a scan winner is a most frequent character of the string.
pub proof fn lemma_winner_most_frequent(s: Seq<char>, j: int)
    requires
        is_winner_at(s, j),
    ensures
        forall|k: int| 0 <= k < s.len() ==> cnt(s, #[trigger] s[k]) <= cnt(s, s[j]),
{
    assert forall|k: int| 0 <= k < s.len() implies cnt(s, #[trigger] s[k]) <= cnt(s, s[j]) by {
        lemma_total_is_some_running(s, s[k]);
        let j2 = choose|j2: int|
            0 <= j2 < s.len() && s[j2] == s[k] && running(s, j2) == cnt(s, s[k]);
        assert(running(s, j2) <= running(s, j));
        lemma_cnt_take_le(s, j + 1, s[j]);
    }
}

/// Law: the scan has at most one winner, so the contract of `freq` pins its
/// result.
pub proof fn lemma_winner_unique(s: Seq<char>, j1: int, j2: int)
    requires
        is_winner_at(s, j1),
        is_winner_at(s, j2),
    ensures
        j1 == j2,
{
    if j1 < j2 {
        assert(running(s, j1) < running(s, j2));
        assert(running(s, j2) <= running(s, j1));
    }
    if j2 < j1 {
        assert(running(s, j2) < running(s, j1));
        assert(running(s, j1) <= running(s, j2));
    }
}

/// Returns a one-character String containing the most frequent character in
/// `s` (the first to reach the winning count in a left-to-right scan), or an
/// empty String when `s` is empty.
pub fn freq(s: &str) -> (r: String)
    ensures
        s@.len() == 0 ==> r@ == Seq::<char>::empty(),
        s@.len() > 0 ==> exists|j: int| is_winner_at(s@, j) && r@ == seq![s@[j]],
{
    let n = s.unicode_len();
    if n == 0 {
        return String::new();
    }
    let mut chars: Vec<char> = Vec::new();
    let mut i: usize = 0;
    while i < n
        invariant
            n == s@.len(),
            i <= n,
            chars@ == s@.take(i as int),
        decreases n - i,
    {
        chars.push(s.get_char(i));
        proof {
            assert(chars@ =~= s@.take(i as int + 1));
        }
        i += 1;
    }
    proof {
        assert(chars@ =~= s@);
    }

    let mut wi: usize = 0;
    let mut max_count: usize = 0;
    let mut i: usize = 0;
    while i < n
        invariant
            n == s@.len(),
            chars@ == s@,
            i <= n,
            i == 0 ==> max_count == 0,
            i > 0 ==> wi < i && running(s@, wi as int) == max_count,
            forall|k: int| 0 <= k < i ==> running(s@, k) <= max_count,
            forall|k: int| 0 <= k < wi ==> running(s@, k) < max_count,
        decreases n - i,
    {
        let target = chars[i];
        let mut c: usize = 0;
        let mut j: usize = 0;
        proof {
            assert(s@.take(0) =~= Seq::<char>::empty());
        }
        while j <= i
            invariant
                n == s@.len(),
                chars@ == s@,
                i < n,
                target == s@[i as int],
                j <= i + 1,
                c <= j,
                c == cnt(s@.take(j as int), s@[i as int]),
            decreases i + 1 - j,
        {
            proof {
                lemma_cnt_push(s@.take(j as int), s@[j as int], s@[i as int]);
                assert(s@.take(j as int).push(s@[j as int]) =~= s@.take(j as int + 1));
            }
            if chars[j] == target {
                c += 1;
            }
            j += 1;
        }
        if c > max_count {
            max_count = c;
            wi = i;
        }
        i += 1;
    }
    let out = s.substring_char(wi, wi + 1).to_owned();
    proof {
        assert(is_winner_at(s@, wi as int));
        assert(out@ =~= seq![s@[wi as int]]);
    }
    out
}

} // verus!
