//! What holds of every stable sort by key: it is a permutation, it is unique,
//! and within a tile it runs front to back.

use vstd::prelude::*;
use vstd::seq_lib::seq_to_set_is_finite;
use vstd::set_lib::lemma_int_range;
use vstd::set_lib::lemma_subset_equality;
use vstd::set_lib::set_int_range;
use crate::radix_sort::is_stable_sort_of;
use crate::radix_sort::lex_before;
use crate::radix_sort::stable_sort_witness;
use crate::records::depth_of;
use crate::records::tile_of;
use crate::records::IntersectionRecord;

verus! {

/// No place of the input is named twice: the sort duplicates no record.
pub proof fn lemma_witness_injective(
    sorted: Seq<IntersectionRecord>,
    input: Seq<IntersectionRecord>,
    from: Seq<int>,
)
    requires
        stable_sort_witness(sorted, input, from),
    ensures
        from.no_duplicates(),
{
    assert forall|i: int, j: int|
        0 <= i < from.len() && 0 <= j < from.len() && i != j implies from[i] != from[j] by {
        if i < j {
            assert(lex_before(sorted[i].key as nat, from[i], sorted[j].key as nat, from[j]));
        } else {
            assert(lex_before(sorted[j].key as nat, from[j], sorted[i].key as nat, from[i]));
        }
    }
}

/// Every place of the input is named: the sort drops no record.
pub proof fn lemma_witness_onto(
    sorted: Seq<IntersectionRecord>,
    input: Seq<IntersectionRecord>,
    from: Seq<int>,
    place: int,
)
    requires
        stable_sort_witness(sorted, input, from),
        0 <= place < input.len(),
    ensures
        exists|i: int| 0 <= i < from.len() && from[i] == place,
{
    let n = input.len() as int;
    lemma_witness_injective(sorted, input, from);
    from.unique_seq_to_set();
    seq_to_set_is_finite(from);
    lemma_int_range(0, n);
    assert(from.to_set().subset_of(set_int_range(0, n))) by {
        assert forall|x: int| from.to_set().contains(x) implies set_int_range(0, n).contains(
            x,
        ) by {
            let i = choose|i: int| 0 <= i < from.len() && from[i] == x;
            assert(0 <= from[i] < n);
        }
    }
    lemma_subset_equality(from.to_set(), set_int_range(0, n));
    assert(set_int_range(0, n).contains(place));
    assert(from.to_set().contains(place));
    assert(from.contains(place));
}

/// Two records of equal key stand in the output in the order in which they
/// stood in the input.
pub proof fn lemma_equal_keys_keep_order(
    sorted: Seq<IntersectionRecord>,
    input: Seq<IntersectionRecord>,
    from: Seq<int>,
    i: int,
    j: int,
)
    requires
        stable_sort_witness(sorted, input, from),
        0 <= i < j < sorted.len(),
        sorted[i].key == sorted[j].key,
    ensures
        from[i] < from[j],
{
    assert(lex_before(sorted[i].key as nat, from[i], sorted[j].key as nat, from[j]));
}

/// In sorted output tile ids ascend, and among the records of one tile the
/// depths never decrease.
pub proof fn lemma_depth_order_within_tile(
    sorted: Seq<IntersectionRecord>,
    input: Seq<IntersectionRecord>,
    i: int,
    j: int,
)
    requires
        is_stable_sort_of(sorted, input),
        0 <= i <= j < sorted.len(),
    ensures
        sorted[i].key <= sorted[j].key,
        tile_of(sorted[i].key) <= tile_of(sorted[j].key),
        tile_of(sorted[i].key) == tile_of(sorted[j].key) ==> depth_of(sorted[i].key) <= depth_of(
            sorted[j].key,
        ),
{
    let from = choose|from: Seq<int>| stable_sort_witness(sorted, input, from);
    if i < j {
        assert(lex_before(sorted[i].key as nat, from[i], sorted[j].key as nat, from[j]));
    }
}

proof fn lemma_witnesses_agree(
    a: Seq<IntersectionRecord>,
    b: Seq<IntersectionRecord>,
    input: Seq<IntersectionRecord>,
    from_a: Seq<int>,
    from_b: Seq<int>,
    i: int,
)
    requires
        stable_sort_witness(a, input, from_a),
        stable_sort_witness(b, input, from_b),
        0 <= i < input.len(),
    ensures
        from_a[i] == from_b[i],
    decreases i,
{
    assert forall|k: int| 0 <= k < i implies from_a[k] == from_b[k] by {
        lemma_witnesses_agree(a, b, input, from_a, from_b, k);
    }
    let x = from_a[i];
    let y = from_b[i];
    if x != y {
        lemma_witness_injective(a, input, from_a);
        lemma_witness_injective(b, input, from_b);
        lemma_witness_onto(b, input, from_b, x);
        let j = choose|j: int| 0 <= j < from_b.len() && from_b[j] == x;
        if j < i {
            assert(from_a[j] == from_a[i]);
        }
        assert(lex_before(b[i].key as nat, from_b[i], b[j].key as nat, from_b[j]));
        lemma_witness_onto(a, input, from_a, y);
        let m = choose|m: int| 0 <= m < from_a.len() && from_a[m] == y;
        if m < i {
            assert(from_b[m] == from_b[i]);
        }
        assert(lex_before(a[i].key as nat, from_a[i], a[m].key as nat, from_a[m]));
    }
}

/// An input has exactly one stable sort by key.
pub proof fn lemma_stable_sort_unique(
    a: Seq<IntersectionRecord>,
    b: Seq<IntersectionRecord>,
    input: Seq<IntersectionRecord>,
)
    requires
        is_stable_sort_of(a, input),
        is_stable_sort_of(b, input),
    ensures
        a == b,
{
    let from_a = choose|from: Seq<int>| stable_sort_witness(a, input, from);
    let from_b = choose|from: Seq<int>| stable_sort_witness(b, input, from);
    assert forall|i: int| 0 <= i < a.len() implies a[i] == b[i] by {
        lemma_witnesses_agree(a, b, input, from_a, from_b, i);
    }
    assert(a =~= b);
}

} // verus!
