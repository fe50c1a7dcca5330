//! Exclusive prefix sums over 32-bit counts.

use vstd::prelude::*;

verus! {

/// Sum of the first `k` elements of `s`.
pub open spec fn sum_to(s: Seq<u32>, k: int) -> nat
    decreases k,
{
    if k <= 0 {
        0
    } else {
        sum_to(s, k - 1) + (s[k - 1] as nat)
    }
}

/// Sum of all elements of `s`.
pub open spec fn total(s: Seq<u32>) -> nat {
    sum_to(s, s.len() as int)
}

/// `offsets` is the exclusive scan of `counts` with the total appended: one
/// entry more than `counts`, entry `k` being the sum of the first `k` counts.
pub open spec fn is_scan_of(offsets: Seq<u32>, counts: Seq<u32>) -> bool {
    &&& offsets.len() == counts.len() + 1
    &&& forall|k: int| 0 <= k <= counts.len() ==> #[trigger] offsets[k] == sum_to(counts, k)
}

/// Partial sums never decrease as more elements are taken.
pub proof fn lemma_sum_to_monotone(s: Seq<u32>, i: int, j: int)
    requires
        i <= j,
    ensures
        sum_to(s, i) <= sum_to(s, j),
    decreases j - i,
{
    if i < j {
        lemma_sum_to_monotone(s, i, j - 1);
    }
}

/// Raising one element by one raises every partial sum past it by one.
pub proof fn lemma_sum_to_bump(a: Seq<u32>, b: Seq<u32>, at: int, k: int)
    requires
        a.len() == b.len(),
        0 <= at < a.len(),
        0 <= k <= a.len(),
        b[at] == a[at] + 1,
        forall|i: int| 0 <= i < a.len() && i != at ==> a[i] == b[i],
    ensures
        sum_to(b, k) == sum_to(a, k) + (if at < k { 1nat } else { 0nat }),
    decreases k,
{
    if k > 0 {
        lemma_sum_to_bump(a, b, at, k - 1);
    }
}

/// A scan starts at zero, never decreases, and ends at the total.
pub proof fn lemma_scan_is_monotone(offsets: Seq<u32>, counts: Seq<u32>)
    requires
        is_scan_of(offsets, counts),
    ensures
        offsets[0] == 0,
        offsets.last() == total(counts),
        forall|i: int, j: int| 0 <= i <= j < offsets.len() ==> offsets[i] <= offsets[j],
{
    assert forall|i: int, j: int| 0 <= i <= j < offsets.len() implies offsets[i] <= offsets[j] by {
        lemma_sum_to_monotone(counts, i, j);
    }
}

/// Exclusive scan of `counts`, with the total as the last entry, or `None`
/// where the total does not fit in 32 bits.
pub fn checked_exclusive_scan(counts: &Vec<u32>) -> (result: Option<Vec<u32>>)
    requires
        counts.len() < usize::MAX,
    ensures
        result.is_some() <==> total(counts@) <= u32::MAX,
        result.is_some() ==> is_scan_of(result.unwrap()@, counts@),
{
    let n = counts.len();
    let mut offsets: Vec<u32> = Vec::with_capacity(n + 1);
    let mut running: u32 = 0;
    offsets.push(running);
    let mut i: usize = 0;
    while i < n
        invariant
            n == counts.len(),
            0 <= i <= n,
            offsets.len() == i + 1,
            running == sum_to(counts@, i as int),
            forall|k: int| 0 <= k <= i ==> #[trigger] offsets[k] == sum_to(counts@, k),
        decreases n - i,
    {
        match running.checked_add(counts[i]) {
            Some(next) => {
                running = next;
            },
            None => {
                proof {
                    lemma_sum_to_monotone(counts@, i + 1, n as int);
                }
                return None;
            },
        }
        offsets.push(running);
        i += 1;
    }
    Some(offsets)
}

/// Exclusive scan of `counts`, with the total as the last entry.
pub fn exclusive_scan(counts: &Vec<u32>) -> (offsets: Vec<u32>)
    requires
        counts.len() < usize::MAX,
        total(counts@) <= u32::MAX,
    ensures
        is_scan_of(offsets@, counts@),
        offsets@.last() == total(counts@),
        forall|i: int, j: int| 0 <= i <= j < offsets.len() ==> offsets[i] <= offsets[j],
{
    let scanned = checked_exclusive_scan(counts);
    let offsets = scanned.unwrap();
    proof {
        lemma_scan_is_monotone(offsets@, counts@);
    }
    offsets
}

} // verus!
