//! Counting arguments: how many numbers, or sets, there can be.

use vstd::prelude::*;

verus! {

/// A list of numbers below `n`, no two of them the same, has `n` members at
/// most.
pub proof fn lemma_distinct_bounded(s: Seq<int>, n: int)
    requires
        0 <= n,
        forall|i: int| 0 <= i < s.len() ==> 0 <= #[trigger] s[i] < n,
        forall|i: int, j: int| 0 <= i < j < s.len() ==> #[trigger] s[i] != #[trigger] s[j],
    ensures
        s.len() <= n,
{
    if s.len() > 0 {
        assert(n > 0) by {
            assert(0 <= s[0] < n);
        }
        assert(s.no_duplicates());
        s.unique_seq_to_set();
        vstd::set_lib::lemma_int_range(0, n);
        assert(s.to_set().subset_of(vstd::set_lib::set_int_range(0, n))) by {
            assert forall|x: int| s.to_set().contains(x) implies vstd::set_lib::set_int_range(
                0,
                n,
            ).contains(x) by {
                let i = choose|i: int| 0 <= i < s.len() && s[i] == x;
                assert(0 <= s[i] < n);
            }
        }
        vstd::set_lib::lemma_len_subset(s.to_set(), vstd::set_lib::set_int_range(0, n));
    }
}

/// Two to the power of `n`.
pub open spec fn two_to(n: nat) -> nat
    decreases n,
{
    if n == 0 {
        1
    } else {
        2 * two_to((n - 1) as nat)
    }
}

/// The number that the first `k` of `bits` write in binary, the first bit
/// being the lowest.
pub open spec fn code(bits: Seq<bool>, k: nat) -> nat
    decreases k,
{
    if k == 0 {
        0
    } else if bits[k - 1] {
        code(bits, (k - 1) as nat) + two_to((k - 1) as nat)
    } else {
        code(bits, (k - 1) as nat)
    }
}

/// `k` bits write a number below two to the power of `k`.
pub proof fn lemma_code_below(bits: Seq<bool>, k: nat)
    ensures
        code(bits, k) < two_to(k),
    decreases k,
{
    if k > 0 {
        lemma_code_below(bits, (k - 1) as nat);
    }
}

/// Bits that write the same number are the same bits.
pub proof fn lemma_code_same(a: Seq<bool>, b: Seq<bool>, k: nat)
    requires
        k <= a.len(),
        k <= b.len(),
        code(a, k) == code(b, k),
    ensures
        forall|i: int| 0 <= i < k ==> a[i] == b[i],
    decreases k,
{
    if k > 0 {
        lemma_code_below(a, (k - 1) as nat);
        lemma_code_below(b, (k - 1) as nat);
        lemma_code_same(a, b, (k - 1) as nat);
    }
}

} // verus!
