//! Rewriting of a grouped object-id column through an ordinal remap.
//!
//! A column is a pair of parallel arrays: `bits`, whose set bits terminate
//! groups, and `nums`, the packed object ids.  The i-th group is the run of
//! ids up to and including the position of the i-th set bit.  Remapping sends
//! each id through the map and re-sorts every group; group boundaries do not
//! move, so the bit array is left untouched.

use vstd::prelude::*;
use vstd::seq_lib::group_to_multiset_ensures;
use crate::idmap::IdMap;
use crate::idmap::spec_apply;

verus! {

/// Indices of the set bits, in ascending order.
pub open spec fn spec_one_positions(bits: Seq<bool>) -> Seq<int>
    decreases bits.len(),
{
    if bits.len() == 0 {
        Seq::empty()
    } else if bits.last() {
        spec_one_positions(bits.drop_last()).push(bits.len() - 1)
    } else {
        spec_one_positions(bits.drop_last())
    }
}

/// How many groups the bit array closes.
pub open spec fn spec_num_groups(bits: Seq<bool>) -> int {
    spec_one_positions(bits).len() as int
}

/// How many values of `nums` belong to some group: everything up to and
/// including the last set bit.
pub open spec fn spec_consumed(bits: Seq<bool>) -> int {
    let ones = spec_one_positions(bits);
    if ones.len() == 0 {
        0
    } else {
        ones.last() + 1
    }
}

/// Where group `j` starts in `nums`.
pub open spec fn spec_group_start(bits: Seq<bool>, j: int) -> int {
    if j == 0 {
        0
    } else {
        spec_one_positions(bits)[j - 1] + 1
    }
}

/// The values of group `j`.
pub open spec fn spec_group(bits: Seq<bool>, nums: Seq<u64>, j: int) -> Seq<u64> {
    nums.subrange(spec_group_start(bits, j), spec_one_positions(bits)[j] + 1)
}

/// Nondecreasing order.
pub open spec fn spec_sorted_u64(s: Seq<u64>) -> bool {
    forall|a: int, b: int| 0 <= a < b < s.len() ==> s[a] <= s[b]
}

/// Strictly ascending order.
pub open spec fn spec_strictly_ascending(s: Seq<u64>) -> bool {
    forall|a: int, b: int| 0 <= a < b < s.len() ==> s[a] < s[b]
}

/// Set-bit positions really are positions of set bits, and ascend.
pub proof fn lemma_one_positions(bits: Seq<bool>)
    ensures
        ({
            let ones = spec_one_positions(bits);
            &&& forall|j: int, k: int| 0 <= j < k < ones.len() ==> ones[j] < ones[k]
            &&& forall|j: int| 0 <= j < ones.len() ==> 0 <= #[trigger] ones[j] < bits.len()
                && bits[ones[j]]
        }),
    decreases bits.len(),
{
    if bits.len() > 0 {
        lemma_one_positions(bits.drop_last());
        let p = spec_one_positions(bits.drop_last());
        assert(forall|j: int| 0 <= j < p.len() ==> bits.drop_last()[#[trigger] p[j]] == bits[p[j]]);
    }
}

/// The set bits of a prefix are the first set bits of the whole array; every
/// further set bit lies at or past the cut.
pub proof fn lemma_ones_prefix(bits: Seq<bool>, i: int)
    requires
        0 <= i <= bits.len(),
    ensures
        ({
            let op = spec_one_positions(bits.take(i));
            let of = spec_one_positions(bits);
            &&& op.len() <= of.len()
            &&& of.take(op.len() as int) =~= op
            &&& forall|j: int| op.len() <= j < of.len() ==> #[trigger] of[j] >= i
        }),
    decreases bits.len() - i,
{
    if i == bits.len() {
        assert(bits.take(i) =~= bits);
    } else {
        lemma_ones_prefix(bits, i + 1);
        let shorter = bits.take(i);
        let longer = bits.take(i + 1);
        assert(longer.drop_last() =~= shorter);
        assert(longer.last() == bits[i]);
        let op = spec_one_positions(shorter);
        let op1 = spec_one_positions(longer);
        let of = spec_one_positions(bits);
        if bits[i] {
            assert(op1 =~= op.push(i));
            assert(of.take(op.len() as int) =~= op) by {
                assert(forall|k: int|
                    0 <= k < op.len() ==> of.take(op1.len() as int)[k] == #[trigger] of[k]);
            }
            assert(of[op.len() as int] == op1[op.len() as int]);
        } else {
            assert(op1 =~= op);
        }
    }
}

/// Sorts a vector of ids in place (insertion sort); the contents, seen as a
/// multiset, do not change.
pub fn sort_values(v: &mut Vec<u64>)
    ensures
        final(v)@.len() == old(v)@.len(),
        final(v)@.to_multiset() == old(v)@.to_multiset(),
        spec_sorted_u64(final(v)@),
{
    broadcast use group_to_multiset_ensures;

    let n = v.len();
    let mut i: usize = 1;
    while i < n
        invariant
            1 <= i || n == 0,
            i <= n || n == 0,
            n == v@.len() == old(v)@.len(),
            v@.to_multiset() == old(v)@.to_multiset(),
            forall|a: int, b: int| 0 <= a < b < i ==> v@[a] <= v@[b],
        decreases n - i,
    {
        let x = v[i];
        let mut j = i;
        while j > 0 && v[j - 1] > x
            invariant
                j <= i < n == v@.len(),
                x == v@[i as int],
                forall|k: int| j <= k < i ==> v@[k] > x,
            decreases j,
        {
            j -= 1;
        }
        let ghost before = v@;
        let y = v.remove(i);
        v.insert(j, y);
        proof {
            broadcast use group_to_multiset_ensures;

            let after = v@;
            assert(after =~= before.remove(i as int).insert(j as int, x));
            assert(after.to_multiset() =~= before.to_multiset()) by {
                assert(before.remove(i as int).to_multiset() =~= before.to_multiset().remove(x));
                assert(before.to_multiset().contains(x)) by {
                    assert(before[i as int] == x);
                    assert(before.contains(x));
                }
                assert(before.to_multiset().remove(x).insert(x) =~= before.to_multiset());
            }
            assert forall|a: int, b: int| 0 <= a < b < i + 1 implies after[a] <= after[b] by {
                assert(forall|k: int| 0 <= k < j ==> after[k] == before[k]);
                assert(after[j as int] == x);
                assert(forall|k: int| j < k <= i ==> after[k] == before[k - 1]);
                if j > 0 {
                    assert(before[j - 1] <= x);
                }
            }
        }
        i += 1;
    }
}

/// The images of a run of ids under a remap, in place.
pub open spec fn spec_mapped(m: Seq<(u64, u64)>, s: Seq<u64>) -> Seq<u64> {
    Seq::new(s.len(), |i: int| spec_apply(m, s[i]))
}

/// Rewrites a grouped object-id column through `mapping`.
///
/// Ids absent from the map stay themselves.  Every group of the result holds
/// the images of the corresponding input group, sorted; the group count, the
/// group boundaries and the number of covered values are those of the input.
/// Input values past the last set bit belong to no group and are dropped, as
/// the groups of the column they encode are already complete.
pub fn convert_sp_o_nums(bits: &Vec<bool>, nums: &Vec<u64>, mapping: &IdMap) -> (r: Vec<u64>)
    requires
        mapping.wf(),
        bits@.len() == nums@.len(),
    ensures
        r@.len() == spec_consumed(bits@),
        forall|j: int|
            0 <= j < spec_num_groups(bits@) ==> spec_sorted_u64(
                #[trigger] spec_group(bits@, r@, j),
            ),
        forall|j: int|
            0 <= j < spec_num_groups(bits@) ==> #[trigger] spec_group(bits@, r@, j).to_multiset()
                == spec_mapped(mapping.pairs@, spec_group(bits@, nums@, j)).to_multiset(),
{
    let n = bits.len();
    let mut out: Vec<u64> = Vec::new();
    let mut start: usize = 0;
    let mut i: usize = 0;
    while i < n
        invariant
            mapping.wf(),
            i <= n,
            n == bits@.len() == nums@.len(),
            start <= i,
            out@.len() == start,
            start == spec_consumed(bits@.take(i as int)),
            forall|j: int|
                0 <= j < spec_num_groups(bits@.take(i as int)) ==> spec_sorted_u64(
                    #[trigger] spec_group(bits@, out@, j),
                ),
            forall|j: int|
                0 <= j < spec_num_groups(bits@.take(i as int)) ==> #[trigger] spec_group(
                    bits@,
                    out@,
                    j,
                ).to_multiset() == spec_mapped(
                    mapping.pairs@,
                    spec_group(bits@, nums@, j),
                ).to_multiset(),
        decreases n - i,
    {
        proof {
            lemma_ones_prefix(bits@, i as int);
            lemma_ones_prefix(bits@, i as int + 1);
            lemma_one_positions(bits@);
            lemma_one_positions(bits@.take(i as int));
            assert(bits@.take(i as int + 1).drop_last() =~= bits@.take(i as int));
        }
        if bits[i] {
            let ghost g = spec_num_groups(bits@.take(i as int));
            // collect the images of the group that this set bit closes
            let mut group: Vec<u64> = Vec::new();
            let mut k = start;
            while k <= i
                invariant
                    mapping.wf(),
                    start <= k <= i + 1 <= n,
                    n == nums@.len(),
                    group@ =~= spec_mapped(mapping.pairs@, nums@.subrange(start as int, k as int)),
                decreases i + 1 - k,
            {
                group.push(mapping.apply(nums[k]));
                k += 1;
                proof {
                    assert(group@ =~= spec_mapped(
                        mapping.pairs@,
                        nums@.subrange(start as int, k as int),
                    ));
                }
            }
            let ghost mapped = group@;
            sort_values(&mut group);
            let ghost sorted_group = group@;
            let ghost out_before = out@;
            out.append(&mut group);
            proof {
                assert(out@ =~= out_before + sorted_group);
                let of = spec_one_positions(bits@);
                let opre = spec_one_positions(bits@.take(i as int));
                let opost = spec_one_positions(bits@.take(i as int + 1));
                assert(opost =~= opre.push(i as int));
                assert(of[g] == i as int) by {
                    assert(of.take(opost.len() as int)[g] == opost[g]);
                }
                assert(spec_group_start(bits@, g) == start);
                assert(out@.subrange(start as int, i + 1) =~= sorted_group);
                assert(spec_group(bits@, out@, g) =~= sorted_group);
                assert(spec_group(bits@, nums@, g) =~= nums@.subrange(start as int, i + 1));
                assert(mapped == spec_mapped(mapping.pairs@, spec_group(bits@, nums@, g)));
                assert forall|j: int|
                    0 <= j < spec_num_groups(bits@.take(i as int + 1)) implies spec_sorted_u64(
                    #[trigger] spec_group(bits@, out@, j),
                ) && spec_group(bits@, out@, j).to_multiset() == spec_mapped(
                    mapping.pairs@,
                    spec_group(bits@, nums@, j),
                ).to_multiset() by {
                    if j < g {
                        assert(of[j] == opre[j] && (j > 0 ==> of[j - 1] == opre[j - 1])) by {
                            assert(of.take(opre.len() as int)[j] == opre[j]);
                            if j > 0 {
                                assert(of.take(opre.len() as int)[j - 1] == opre[j - 1]);
                            }
                        }
                        assert(of[j] < start) by {
                            if j < g - 1 {
                                assert(opre[j] < opre[g - 1]);
                            }
                        }
                        assert(spec_group(bits@, out@, j) =~= spec_group(bits@, out_before, j));
                    } else {
                        assert(j == g);
                    }
                }
            }
            start = i + 1;
        }
        i += 1;
    }
    proof {
        assert(bits@.take(n as int) =~= bits@);
    }
    out
}

/// Triple remap invariant: a group that was strictly ascending stays strictly
/// ascending after the rewrite, provided the remap never sends two ordinals to
/// the same image.  `output` is any rewritten group: the sorted images of the
/// input group, as [`convert_sp_o_nums`] ensures for each group.
pub proof fn lemma_group_remap_strict(m: Seq<(u64, u64)>, input: Seq<u64>, output: Seq<u64>)
    requires
        spec_strictly_ascending(input),
        forall|x: u64, y: u64| spec_apply(m, x) == spec_apply(m, y) ==> x == y,
        output.to_multiset() == spec_mapped(m, input).to_multiset(),
        spec_sorted_u64(output),
    ensures
        spec_strictly_ascending(output),
{
    broadcast use group_to_multiset_ensures;

    let mapped = spec_mapped(m, input);
    assert(mapped.no_duplicates()) by {
        assert forall|i: int, j: int|
            0 <= i < mapped.len() && 0 <= j < mapped.len() && i != j implies mapped[i]
            != mapped[j] by {
            if mapped[i] == mapped[j] {
                assert(spec_apply(m, input[i]) == spec_apply(m, input[j]));
                assert(input[i] == input[j]);
                if i < j {
                    assert(input[i] < input[j]);
                } else {
                    assert(input[j] < input[i]);
                }
            }
        }
    }
    mapped.lemma_multiset_has_no_duplicates();
    output.lemma_multiset_has_no_duplicates_conv();
    assert forall|a: int, b: int| 0 <= a < b < output.len() implies output[a] < output[b] by {
        assert(output[a] <= output[b]);
        assert(output[a] != output[b]);
    }
}

} // verus!

