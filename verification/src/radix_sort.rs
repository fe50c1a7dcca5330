//! Stable least-significant-digit radix sort of intersection records by key.

use vstd::prelude::*;
use vstd::arithmetic::div_mod::lemma_breakdown;
use vstd::arithmetic::div_mod::lemma_small_mod;
use vstd::arithmetic::power2::pow2;
use vstd::arithmetic::power2::lemma_pow2_adds;
use vstd::arithmetic::power2::lemma_pow2_pos;
use vstd::arithmetic::power2::lemma_pow2_strictly_increases;
use vstd::arithmetic::power2::lemma2_to64;
use vstd::bits::low_bits_mask;
use vstd::bits::lemma_u64_low_bits_mask_is_mod;
use vstd::bits::lemma_u64_pow2_no_overflow;
use vstd::bits::lemma_u64_shl_is_mul;
use vstd::bits::lemma_u64_shr_is_div;
use crate::prefix_sum::exclusive_scan;
use crate::prefix_sum::lemma_sum_to_bump;
use crate::prefix_sum::sum_to;
use crate::prefix_sum::total;
use crate::records::IntersectionRecord;

verus! {

/// Width of a sort key in bits.
pub const KEY_BITS: u32 = 64;

/// Digit width used where the caller does not choose one: eight passes over
/// histograms of 256 buckets.
pub const DEFAULT_DIGIT_BITS: u32 = 8;

/// Largest digit width accepted; the histogram of a pass has two to the power
/// of the digit width buckets.
pub const MAX_DIGIT_BITS: u32 = 16;

/// The `width` lowest bits of `key`, as a number.
pub open spec fn low_bits(key: u64, width: nat) -> nat {
    (key as nat) % pow2(width)
}

/// The digit of `key` that starts at bit `shift` and is `bits` wide.
pub open spec fn digit_at(key: u64, shift: nat, bits: nat) -> nat {
    ((key as nat) / pow2(shift)) % pow2(bits)
}

/// Order of two items by a number first and by their position second.
pub open spec fn lex_before(rank_a: nat, pos_a: int, rank_b: nat, pos_b: int) -> bool {
    rank_a < rank_b || (rank_a == rank_b && pos_a < pos_b)
}

/// How many of the first `upto` records have digit `d`.
pub open spec fn count_digit(
    records: Seq<IntersectionRecord>,
    shift: nat,
    bits: nat,
    d: nat,
    upto: int,
) -> nat
    decreases upto,
{
    if upto <= 0 {
        0
    } else {
        count_digit(records, shift, bits, d, upto - 1) + (if digit_at(
            records[upto - 1].key,
            shift,
            bits,
        ) == d {
            1nat
        } else {
            0nat
        })
    }
}

/// `from` names, for each place of `sorted`, a place of `input` that holds the
/// same record, so that keys ascend and records of equal key keep the order
/// that they had in `input`.
pub open spec fn stable_sort_witness(
    sorted: Seq<IntersectionRecord>,
    input: Seq<IntersectionRecord>,
    from: Seq<int>,
) -> bool {
    &&& sorted.len() == input.len()
    &&& from.len() == input.len()
    &&& forall|i: int|
        0 <= i < sorted.len() ==> 0 <= #[trigger] from[i] < input.len() && sorted[i]
            == input[from[i]]
    &&& forall|i: int, j: int|
        0 <= i < j < sorted.len() ==> lex_before(
            sorted[i].key as nat,
            #[trigger] from[i],
            sorted[j].key as nat,
            #[trigger] from[j],
        )
}

/// `sorted` is `input` sorted by key, records of equal key in input order.
pub open spec fn is_stable_sort_of(
    sorted: Seq<IntersectionRecord>,
    input: Seq<IntersectionRecord>,
) -> bool {
    exists|from: Seq<int>| stable_sort_witness(sorted, input, from)
}

proof fn lemma_count_digit_monotone(
    records: Seq<IntersectionRecord>,
    shift: nat,
    bits: nat,
    d: nat,
    i: int,
    j: int,
)
    requires
        i <= j,
    ensures
        count_digit(records, shift, bits, d, i) <= count_digit(records, shift, bits, d, j),
    decreases j - i,
{
    if i < j {
        lemma_count_digit_monotone(records, shift, bits, d, i, j - 1);
    }
}

/// The low bits up to the end of a digit are that digit above the low bits
/// below it, so they are ordered by the digit first.
proof fn lemma_low_bits_order(a: u64, b: u64, shift: nat, bits: nat)
    ensures
        digit_at(a, shift, bits) < digit_at(b, shift, bits) ==> low_bits(a, shift + bits)
            < low_bits(b, shift + bits),
        digit_at(a, shift, bits) == digit_at(b, shift, bits) ==> (low_bits(a, shift + bits)
            < low_bits(b, shift + bits) <==> low_bits(a, shift) < low_bits(b, shift)),
        digit_at(a, shift, bits) == digit_at(b, shift, bits) ==> (low_bits(a, shift + bits)
            == low_bits(b, shift + bits) <==> low_bits(a, shift) == low_bits(b, shift)),
{
    let unit = pow2(shift) as int;
    let radix = pow2(bits) as int;
    lemma_pow2_pos(shift);
    lemma_pow2_pos(bits);
    lemma_pow2_adds(shift, bits);
    lemma_breakdown(a as int, unit, radix);
    lemma_breakdown(b as int, unit, radix);
    let da = digit_at(a, shift, bits) as int;
    let db = digit_at(b, shift, bits) as int;
    let la = low_bits(a, shift) as int;
    let lb = low_bits(b, shift) as int;
    assert(low_bits(a, shift + bits) == unit * da + la);
    assert(low_bits(b, shift + bits) == unit * db + lb);
    assert(0 <= la < unit && 0 <= lb < unit);
    if da < db {
        assert(unit * da + unit <= unit * db) by (nonlinear_arith)
            requires
                da + 1 <= db,
                unit > 0,
        ;
    }
}

/// The digit of a key, by shifting and masking.
fn digit(key: u64, shift: u32, bits: u32) -> (d: usize)
    requires
        shift < KEY_BITS,
        1 <= bits <= MAX_DIGIT_BITS,
    ensures
        d == digit_at(key, shift as nat, bits as nat),
        d < pow2(bits as nat),
        pow2(bits as nat) <= 0x1_0000,
{
    proof {
        lemma2_to64();
        lemma_pow2_pos(bits as nat);
        if bits < 16 {
            lemma_pow2_strictly_increases(bits as nat, 16);
        }
        lemma_u64_pow2_no_overflow(bits as nat);
        lemma_u64_shl_is_mul(1u64, bits as u64);
        lemma_u64_shr_is_div(key, shift as u64);
        lemma_u64_low_bits_mask_is_mod(key >> shift, bits as nat);
    }
    let mask: u64 = (1u64 << bits) - 1;
    assert(mask == low_bits_mask(bits as nat));
    ((key >> shift) & mask) as usize
}

/// The digit of the record at place `j`.
pub open spec fn digit_of(records: Seq<IntersectionRecord>, shift: nat, bits: nat, j: int) -> nat {
    digit_at(records[j].key, shift, bits)
}

/// `from` names, for each place of `out`, the place of `cur` that its record
/// came from, so that digits ascend and records of equal digit keep their
/// order.
pub open spec fn pass_witness(
    out: Seq<IntersectionRecord>,
    cur: Seq<IntersectionRecord>,
    from: Seq<int>,
    shift: nat,
    bits: nat,
) -> bool {
    &&& out.len() == cur.len()
    &&& from.len() == cur.len()
    &&& forall|p: int|
        0 <= p < out.len() ==> 0 <= #[trigger] from[p] < cur.len() && out[p] == cur[from[p]]
    &&& forall|p: int, q: int|
        0 <= p < q < out.len() ==> lex_before(
            digit_of(cur, shift, bits, #[trigger] from[p]),
            from[p],
            digit_of(cur, shift, bits, #[trigger] from[q]),
            from[q],
        )
}

proof fn lemma_count_digit_bound(
    records: Seq<IntersectionRecord>,
    shift: nat,
    bits: nat,
    d: nat,
    upto: int,
)
    requires
        0 <= upto,
    ensures
        count_digit(records, shift, bits, d, upto) <= upto,
    decreases upto,
{
    if upto > 0 {
        lemma_count_digit_bound(records, shift, bits, d, upto - 1);
    }
}

proof fn lemma_sum_to_zeros(s: Seq<u32>, k: int)
    requires
        0 <= k <= s.len(),
        forall|i: int| 0 <= i < s.len() ==> s[i] == 0,
    ensures
        sum_to(s, k) == 0,
    decreases k,
{
    if k > 0 {
        lemma_sum_to_zeros(s, k - 1);
    }
}

/// The bucket that holds place `p`, among the first `hi` buckets.
proof fn find_bucket(starts: Seq<u32>, p: int, hi: int) -> (d: int)
    requires
        0 < hi < starts.len(),
        starts[0] <= p < starts[hi],
    ensures
        0 <= d < hi,
        starts[d] <= p < starts[d + 1],
    decreases hi,
{
    if starts[hi - 1] <= p {
        hi - 1
    } else {
        find_bucket(starts, p, hi - 1)
    }
}

pub(crate) fn zeros(len: usize) -> (v: Vec<u32>)
    ensures
        v.len() == len,
        forall|i: int| 0 <= i < len ==> v[i] == 0,
{
    let mut v: Vec<u32> = Vec::with_capacity(len);
    let mut i: usize = 0;
    while i < len
        invariant
            0 <= i <= len,
            v.len() == i,
            forall|k: int| 0 <= k < i ==> v[k] == 0,
        decreases len - i,
    {
        v.push(0);
        i += 1;
    }
    v
}

/// Counts, for each digit value, the records that have it.
fn digit_histogram(cur: &Vec<IntersectionRecord>, shift: u32, bits: u32) -> (hist: Vec<u32>)
    requires
        shift < KEY_BITS,
        1 <= bits <= MAX_DIGIT_BITS,
        cur.len() <= u32::MAX,
    ensures
        hist.len() == pow2(bits as nat),
        hist.len() <= 0x1_0000,
        total(hist@) == cur.len(),
        forall|d: int|
            0 <= d < hist.len() ==> #[trigger] hist[d] == count_digit(
                cur@,
                shift as nat,
                bits as nat,
                d as nat,
                cur.len() as int,
            ),
{
    proof {
        lemma2_to64();
        if bits < 16 {
            lemma_pow2_strictly_increases(bits as nat, 16);
        }
        lemma_u64_pow2_no_overflow(bits as nat);
        lemma_u64_shl_is_mul(1u64, bits as u64);
    }
    let radix: usize = (1u64 << bits) as usize;
    let n = cur.len();
    let mut hist = zeros(radix);
    proof {
        lemma_sum_to_zeros(hist@, radix as int);
    }
    let mut i: usize = 0;
    while i < n
        invariant
            n == cur.len(),
            n <= u32::MAX,
            shift < KEY_BITS,
            1 <= bits <= MAX_DIGIT_BITS,
            radix == pow2(bits as nat),
            hist.len() == radix,
            0 <= i <= n,
            total(hist@) == i,
            forall|d: int|
                0 <= d < radix ==> #[trigger] hist[d] == count_digit(
                    cur@,
                    shift as nat,
                    bits as nat,
                    d as nat,
                    i as int,
                ),
        decreases n - i,
    {
        let d = digit(cur[i].key, shift, bits);
        let ghost before = hist@;
        let seen = hist[d];
        proof {
            lemma_count_digit_bound(cur@, shift as nat, bits as nat, d as nat, i as int);
        }
        hist.set(d, seen + 1);
        proof {
            lemma_sum_to_bump(before, hist@, d as int, radix as int);
        }
        i += 1;
    }
    hist
}

/// One pass of the sort: a stable counting sort of `cur` into `out` by the
/// digit that starts at bit `shift`. Returns, for each place of `out`, the
/// place of `cur` that its record came from.
fn counting_pass(
    cur: &Vec<IntersectionRecord>,
    out: &mut Vec<IntersectionRecord>,
    shift: u32,
    bits: u32,
) -> (from: Ghost<Seq<int>>)
    requires
        shift < KEY_BITS,
        1 <= bits <= MAX_DIGIT_BITS,
        cur.len() <= u32::MAX,
        old(out).len() == cur.len(),
    ensures
        pass_witness(final(out)@, cur@, from@, shift as nat, bits as nat),
{
    let n = cur.len();
    let ghost sh = shift as nat;
    let ghost bt = bits as nat;
    let hist = digit_histogram(cur, shift, bits);
    let ghost radix = hist.len() as int;
    let mut next = exclusive_scan(&hist);
    let ghost starts = next@;
    let ghost src: Seq<int> = Seq::new(n as nat, |p: int| -1int);
    proof {
        assert forall|d: int| 0 <= d < radix implies #[trigger] starts[d + 1] == starts[d]
            + count_digit(cur@, sh, bt, d as nat, n as int) by {
            assert(sum_to(hist@, d + 1) == sum_to(hist@, d) + hist[d]);
        }
    }
    let mut i: usize = 0;
    while i < n
        invariant
            n == cur.len(),
            n <= u32::MAX,
            out.len() == n,
            src.len() == n,
            shift < KEY_BITS,
            1 <= bits <= MAX_DIGIT_BITS,
            sh == shift as nat,
            bt == bits as nat,
            radix == pow2(bt),
            next.len() == radix + 1,
            starts.len() == radix + 1,
            0 <= i <= n,
            starts[0] == 0,
            starts[radix] == n,
            forall|d: int|
                0 <= d < radix ==> #[trigger] starts[d + 1] == starts[d] + count_digit(
                    cur@,
                    sh,
                    bt,
                    d as nat,
                    n as int,
                ),
            forall|a: int, b: int| 0 <= a <= b <= radix ==> starts[a] <= starts[b],
            forall|d: int|
                0 <= d < radix ==> #[trigger] next[d] == starts[d] + count_digit(
                    cur@,
                    sh,
                    bt,
                    d as nat,
                    i as int,
                ),
            forall|p: int| 0 <= p < n ==> -1 <= #[trigger] src[p] < i,
            forall|p: int|
                0 <= p < n && #[trigger] src[p] >= 0 ==> out[p] == cur[src[p]] && starts[digit_of(
                    cur@,
                    sh,
                    bt,
                    src[p],
                ) as int] <= p < next[digit_of(cur@, sh, bt, src[p]) as int],
            forall|d: int, p: int|
                0 <= d < radix && 0 <= p < n && starts[d] <= p < #[trigger] next[d]
                    ==> #[trigger] src[p] >= 0 && digit_of(cur@, sh, bt, src[p]) == d,
            forall|p: int, q: int|
                0 <= p < q < n && #[trigger] src[p] >= 0 && #[trigger] src[q] >= 0 && digit_of(
                    cur@,
                    sh,
                    bt,
                    src[p],
                ) == digit_of(cur@, sh, bt, src[q]) ==> src[p] < src[q],
        decreases n - i,
    {
        let record = cur[i];
        let d = digit(record.key, shift, bits);
        let place = next[d];
        proof {
            lemma_count_digit_monotone(cur@, sh, bt, d as nat, i + 1, n as int);
            assert(starts[d + 1] == starts[d as int] + count_digit(cur@, sh, bt, d as nat, n as int));
            assert(place < starts[d + 1]);
            assert(starts[d + 1] <= starts[radix]);
        }
        let ghost old_next = next@;
        let ghost old_src = src;
        out.set(place as usize, record);
        next.set(d, place + 1);
        proof {
            src = src.update(place as int, i as int);
            assert forall|e: int| 0 <= e < radix && e != d implies !(starts[e] <= place
                < #[trigger] old_next[e]) by {
                lemma_count_digit_monotone(cur@, sh, bt, e as nat, i as int, n as int);
                assert(starts[e + 1] == starts[e] + count_digit(cur@, sh, bt, e as nat, n as int));
                if e < d {
                    assert(starts[e + 1] <= starts[d as int]);
                } else {
                    assert(starts[d + 1] <= starts[e]);
                }
            }
            assert forall|p: int| 0 <= p < n && #[trigger] src[p] >= 0 implies out[p]
                == cur[src[p]] && starts[digit_of(cur@, sh, bt, src[p]) as int] <= p
                < next[digit_of(cur@, sh, bt, src[p]) as int] by {
                if p != place {
                    assert(old_src[p] == src[p]);
                    let e = digit_of(cur@, sh, bt, src[p]) as int;
                    assert(p < old_next[e]);
                }
            }
            assert forall|e: int, p: int|
                0 <= e < radix && 0 <= p < n && starts[e] <= p < #[trigger] next[e]
                implies #[trigger] src[p] >= 0 && digit_of(cur@, sh, bt, src[p]) == e by {
                if p != place {
                    assert(starts[e] <= p < old_next[e]);
                    assert(old_src[p] >= 0);
                } else if e != d {
                    assert(next[e] == old_next[e]);
                }
            }
            assert forall|p: int, q: int|
                0 <= p < q < n && #[trigger] src[p] >= 0 && #[trigger] src[q] >= 0 && digit_of(
                    cur@,
                    sh,
                    bt,
                    src[p],
                ) == digit_of(cur@, sh, bt, src[q]) implies src[p] < src[q] by {
                if q == place {
                    assert(old_src[p] == src[p]);
                } else if p == place {
                    assert(old_src[q] == src[q]);
                    assert(q < old_next[d as int]);
                } else {
                    assert(old_src[p] == src[p] && old_src[q] == src[q]);
                }
            }
        }
        i += 1;
    }
    proof {
        assert forall|p: int| 0 <= p < n implies 0 <= #[trigger] src[p] < n && out[p]
            == cur[src[p]] by {
            let d = find_bucket(starts, p, radix);
            assert(next[d] == starts[d + 1]);
        }
        assert forall|p: int, q: int| 0 <= p < q < n implies lex_before(
            digit_of(cur@, sh, bt, #[trigger] src[p]),
            src[p],
            digit_of(cur@, sh, bt, #[trigger] src[q]),
            src[q],
        ) by {
            let dp = digit_of(cur@, sh, bt, src[p]) as int;
            let dq = digit_of(cur@, sh, bt, src[q]) as int;
            if dq < dp {
                assert(next[dq] == starts[dq + 1]);
                assert(starts[dq + 1] <= starts[dp]);
            }
        }
    }
    Ghost(src)
}

/// A key below two to the power of `width` is its own low bits.
proof fn lemma_low_bits_all(key: u64, width: nat)
    requires
        width >= 64,
    ensures
        low_bits(key, width) == key,
{
    lemma2_to64();
    if width > 64 {
        lemma_pow2_strictly_increases(64, width);
    }
    lemma_small_mod(key as nat, pow2(width));
}

/// Sorts `records` by key, ascending, in passes over digits of `digit_bits`
/// bits from the lowest digit up. Records of equal key keep their order.
pub fn radix_sort_with(records: Vec<IntersectionRecord>, digit_bits: u32) -> (sorted: Vec<
    IntersectionRecord,
>)
    requires
        1 <= digit_bits <= MAX_DIGIT_BITS,
        records.len() <= u32::MAX,
    ensures
        is_stable_sort_of(sorted@, records@),
        forall|i: int, j: int| 0 <= i <= j < sorted.len() ==> sorted[i].key <= sorted[j].key,
{
    let ghost input = records@;
    let ghost n = records.len() as int;
    let mut cur = records;
    let mut scratch = cur.clone();
    let ghost from: Seq<int> = Seq::new(n as nat, |i: int| i);
    let mut shift: u32 = 0;
    proof {
        lemma2_to64();
    }
    while shift < KEY_BITS
        invariant
            1 <= digit_bits <= MAX_DIGIT_BITS,
            n == input.len(),
            n <= u32::MAX,
            cur.len() == n,
            scratch.len() == n,
            from.len() == n,
            shift <= KEY_BITS + MAX_DIGIT_BITS,
            forall|i: int|
                0 <= i < n ==> 0 <= #[trigger] from[i] < n && cur[i] == input[from[i]],
            forall|i: int, j: int|
                0 <= i < j < n ==> lex_before(
                    low_bits(cur[i].key, shift as nat),
                    #[trigger] from[i],
                    low_bits(cur[j].key, shift as nat),
                    #[trigger] from[j],
                ),
        decreases KEY_BITS + MAX_DIGIT_BITS - shift,
    {
        let step = counting_pass(&cur, &mut scratch, shift, digit_bits);
        proof {
            let sh = shift as nat;
            let bt = digit_bits as nat;
            let moved = Seq::new(n as nat, |p: int| from[step@[p]]);
            assert forall|p: int, q: int| 0 <= p < q < n implies lex_before(
                low_bits(scratch[p].key, sh + bt),
                #[trigger] moved[p],
                low_bits(scratch[q].key, sh + bt),
                #[trigger] moved[q],
            ) by {
                let a = step@[p];
                let b = step@[q];
                lemma_low_bits_order(cur[a].key, cur[b].key, sh, bt);
                assert(lex_before(
                    digit_of(cur@, sh, bt, a),
                    a,
                    digit_of(cur@, sh, bt, b),
                    b,
                ));
                if digit_of(cur@, sh, bt, a) == digit_of(cur@, sh, bt, b) {
                    assert(lex_before(
                        low_bits(cur[a].key, sh),
                        from[a],
                        low_bits(cur[b].key, sh),
                        from[b],
                    ));
                }
            }
            from = moved;
        }
        std::mem::swap(&mut cur, &mut scratch);
        shift += digit_bits;
    }
    proof {
        assert forall|i: int, j: int| 0 <= i < j < n implies lex_before(
            cur[i].key as nat,
            #[trigger] from[i],
            cur[j].key as nat,
            #[trigger] from[j],
        ) by {
            lemma_low_bits_all(cur[i].key, shift as nat);
            lemma_low_bits_all(cur[j].key, shift as nat);
        }
        assert(stable_sort_witness(cur@, input, from));
        assert forall|i: int, j: int| 0 <= i <= j < n implies cur[i].key <= cur[j].key by {
            if i < j {
                assert(lex_before(cur[i].key as nat, from[i], cur[j].key as nat, from[j]));
            }
        }
    }
    cur
}

/// Sorts `records` by key, ascending, with digits of `DEFAULT_DIGIT_BITS`
/// bits. Records of equal key keep their order.
pub fn radix_sort(records: Vec<IntersectionRecord>) -> (sorted: Vec<IntersectionRecord>)
    requires
        records.len() <= u32::MAX,
    ensures
        is_stable_sort_of(sorted@, records@),
        forall|i: int, j: int| 0 <= i <= j < sorted.len() ==> sorted[i].key <= sorted[j].key,
{
    radix_sort_with(records, DEFAULT_DIGIT_BITS)
}

} // verus!
