//! On-disk form of a layer's remap state.
//!
//! A layer leaves `(offset, pairs)` behind for its children: the next free
//! ordinal, and the remap pairs sorted by old ordinal.  The byte layout is
//! fixed and self-contained: the offset, then the pair count, then the pairs,
//! each number as eight little-endian bytes.  Writer and reader are each
//! other's inverses, as [`lemma_parent_map_round_trip`] states.

use vstd::prelude::*;
use vstd::bytes::lemma_auto_spec_u64_to_from_le_bytes;
use vstd::bytes::spec_u64_from_le_bytes;
use vstd::bytes::spec_u64_to_le_bytes;
use vstd::bytes::u64_from_le_bytes;
use vstd::bytes::u64_to_le_bytes;
use vstd::slice::slice_subrange;
use crate::idmap::IdMap;
use crate::idmap::spec_sorted_pairs;

verus! {

/// The sixteen bytes that one remap pair writes.
pub open spec fn spec_pair_bytes(p: (u64, u64)) -> Seq<u8> {
    spec_u64_to_le_bytes(p.0) + spec_u64_to_le_bytes(p.1)
}

/// The bytes of a run of remap pairs, in order.
pub open spec fn spec_pairs_bytes(pairs: Seq<(u64, u64)>) -> Seq<u8>
    decreases pairs.len(),
{
    if pairs.len() == 0 {
        Seq::empty()
    } else {
        spec_pair_bytes(pairs.first()) + spec_pairs_bytes(pairs.drop_first())
    }
}

/// The whole file: offset, pair count, pairs.
pub open spec fn spec_parent_map_bytes(offset: u64, pairs: Seq<(u64, u64)>) -> Seq<u8> {
    spec_u64_to_le_bytes(offset) + spec_u64_to_le_bytes(pairs.len() as u64) + spec_pairs_bytes(
        pairs,
    )
}

proof fn lemma_pairs_bytes_len(pairs: Seq<(u64, u64)>)
    ensures
        spec_pairs_bytes(pairs).len() == 16 * pairs.len(),
    decreases pairs.len(),
{
    lemma_auto_spec_u64_to_from_le_bytes();
    if pairs.len() > 0 {
        lemma_pairs_bytes_len(pairs.drop_first());
    }
}

proof fn lemma_pairs_bytes_push(pairs: Seq<(u64, u64)>, p: (u64, u64))
    ensures
        spec_pairs_bytes(pairs.push(p)) =~= spec_pairs_bytes(pairs) + spec_pair_bytes(p),
    decreases pairs.len(),
{
    if pairs.len() == 0 {
        assert(pairs.push(p).drop_first() =~= Seq::<(u64, u64)>::empty());
        assert(pairs.push(p).first() == p);
        assert(spec_pairs_bytes(Seq::<(u64, u64)>::empty()) =~= Seq::<u8>::empty());
    } else {
        assert(pairs.push(p).first() == pairs.first());
        assert(pairs.push(p).drop_first() =~= pairs.drop_first().push(p));
        lemma_pairs_bytes_push(pairs.drop_first(), p);
    }
}

/// What a well-formed file holds: the offset, the announced number of pairs.
/// Anything else — a short file, a length that does not match the count —
/// parses to nothing.
pub open spec fn spec_parse_parent_map(b: Seq<u8>) -> Option<(u64, Seq<(u64, u64)>)> {
    if b.len() < 16 {
        None
    } else {
        let offset = spec_u64_from_le_bytes(b.take(8));
        let count = spec_u64_from_le_bytes(b.subrange(8, 16));
        if b.len() != 16 + 16 * count {
            None
        } else {
            Some((offset, spec_parse_pairs(b.skip(16), count as nat)))
        }
    }
}

/// The pairs read from the front of `b`.
pub open spec fn spec_parse_pairs(b: Seq<u8>, count: nat) -> Seq<(u64, u64)>
    decreases count,
{
    if count == 0 {
        Seq::empty()
    } else {
        seq![
            (spec_u64_from_le_bytes(b.take(8)), spec_u64_from_le_bytes(b.subrange(8, 16))),
        ] + spec_parse_pairs(b.skip(16), (count - 1) as nat)
    }
}

proof fn lemma_parse_pairs_of_bytes(pairs: Seq<(u64, u64)>)
    ensures
        spec_parse_pairs(spec_pairs_bytes(pairs), pairs.len()) =~= pairs,
    decreases pairs.len(),
{
    lemma_auto_spec_u64_to_from_le_bytes();
    if pairs.len() > 0 {
        let p = pairs.first();
        let b = spec_pairs_bytes(pairs);
        lemma_pairs_bytes_len(pairs.drop_first());
        assert(b.take(8) =~= spec_u64_to_le_bytes(p.0));
        assert(b.subrange(8, 16) =~= spec_u64_to_le_bytes(p.1));
        assert(b.skip(16) =~= spec_pairs_bytes(pairs.drop_first()));
        lemma_parse_pairs_of_bytes(pairs.drop_first());
    }
}

/// Reading back what was written returns exactly the written state.
pub proof fn lemma_parent_map_round_trip(offset: u64, pairs: Seq<(u64, u64)>)
    requires
        pairs.len() <= u64::MAX,
    ensures
        spec_parse_parent_map(spec_parent_map_bytes(offset, pairs)) == Some((offset, pairs)),
{
    lemma_auto_spec_u64_to_from_le_bytes();
    let b = spec_parent_map_bytes(offset, pairs);
    lemma_pairs_bytes_len(pairs);
    assert(b.take(8) =~= spec_u64_to_le_bytes(offset));
    assert(b.subrange(8, 16) =~= spec_u64_to_le_bytes(pairs.len() as u64));
    assert(b.skip(16) =~= spec_pairs_bytes(pairs));
    lemma_parse_pairs_of_bytes(pairs);
    assert(spec_parse_parent_map(b) == Some((offset, pairs)));
}

/// Writes a layer's remap state.
pub fn encode_parent_map(offset: u64, map: &IdMap) -> (r: Vec<u8>)
    ensures
        r@ == spec_parent_map_bytes(offset, map.pairs@),
{
    proof {
        lemma_auto_spec_u64_to_from_le_bytes();
    }
    let n = map.pairs.len();
    let mut out = u64_to_le_bytes(offset);
    let mut count_bytes = u64_to_le_bytes(n as u64);
    out.append(&mut count_bytes);
    let ghost header = out@;
    let mut k: usize = 0;
    while k < n
        invariant
            k <= n,
            n == map.pairs@.len(),
            header == spec_u64_to_le_bytes(offset) + spec_u64_to_le_bytes(n as u64),
            out@ =~= header + spec_pairs_bytes(map.pairs@.subrange(0, k as int)),
        decreases n - k,
    {
        let p = map.pairs[k];
        let mut lo = u64_to_le_bytes(p.0);
        let mut hi = u64_to_le_bytes(p.1);
        out.append(&mut lo);
        out.append(&mut hi);
        k += 1;
        proof {
            lemma_auto_spec_u64_to_from_le_bytes();
            assert(map.pairs@.subrange(0, k as int) =~= map.pairs@.subrange(0, k - 1).push(p));
            lemma_pairs_bytes_push(map.pairs@.subrange(0, k - 1), p);
            assert(out@ =~= header + spec_pairs_bytes(map.pairs@.subrange(0, k as int)));
        }
    }
    proof {
        assert(map.pairs@.subrange(0, n as int) =~= map.pairs@);
    }
    out
}

/// Reads a layer's remap state back.  `None` means the bytes are no
/// well-formed state: truncated, mis-sized, or with pairs out of order.
pub fn decode_parent_map(bytes: &Vec<u8>) -> (r: Option<(u64, IdMap)>)
    ensures
        r matches Some(p) ==> ({
            &&& p.1.wf()
            &&& spec_parse_parent_map(bytes@) == Some((p.0, p.1.pairs@))
        }),
        r is None ==> ({
            ||| spec_parse_parent_map(bytes@) is None
            ||| !spec_sorted_pairs((spec_parse_parent_map(bytes@)->0).1)
        }),
{
    proof {
        lemma_auto_spec_u64_to_from_le_bytes();
    }
    if bytes.len() < 16 {
        return None;
    }
    let offset = u64_from_le_bytes(slice_subrange(bytes.as_slice(), 0, 8));
    let count = u64_from_le_bytes(slice_subrange(bytes.as_slice(), 8, 16));
    proof {
        assert(bytes@.subrange(0, 8) =~= bytes@.take(8));
    }
    if (bytes.len() as u128) != 16 + 16 * (count as u128) {
        return None;
    }
    let ghost rest = bytes@.skip(16);
    let ghost want = spec_parse_pairs(rest, count as nat);
    proof {
        lemma_parse_pairs_len(rest, count as nat);
        assert(bytes@.len() == 16 + 16 * (count as int));
    }
    let n = count as usize;
    let mut pairs: Vec<(u64, u64)> = Vec::new();
    let mut k: usize = 0;
    while k < n
        invariant
            k <= n,
            n == count,
            bytes@.len() == 16 + 16 * count,
            bytes@.len() <= usize::MAX,
            offset == spec_u64_from_le_bytes(bytes@.take(8)),
            count == spec_u64_from_le_bytes(bytes@.subrange(8, 16)),
            rest == bytes@.skip(16),
            want == spec_parse_pairs(rest, count as nat),
            pairs@.len() == k,
            forall|j: int| 0 <= j < k ==> pairs@[j] == want[j],
            want.len() == count,
            forall|a: int, b: int| 0 <= a < b < k ==> pairs@[a].0 < pairs@[b].0,
        decreases n - k,
    {
        let pos = 16 + 16 * k;
        let lo = u64_from_le_bytes(slice_subrange(bytes.as_slice(), pos, pos + 8));
        let hi = u64_from_le_bytes(slice_subrange(bytes.as_slice(), pos + 8, pos + 16));
        proof {
            lemma_auto_spec_u64_to_from_le_bytes();
            lemma_parse_pairs_index(rest, count as nat, k as int);
            assert(bytes@.subrange(pos as int, pos + 8) =~= rest.skip(16 * k as int).take(8));
            assert(bytes@.subrange(pos + 8, pos + 16) =~= rest.skip(16 * k as int).subrange(
                8,
                16,
            ));
        }
        if k > 0 {
            let prev = pairs[k - 1].0;
            if prev >= lo {
                proof {
                    assert(want[k - 1].0 == prev);
                    assert(want[k as int].0 == lo);
                    assert(!spec_sorted_pairs(want));
                    assert(spec_parse_parent_map(bytes@) == Some((offset, want)));
                }
                return None;
            }
        }
        pairs.push((lo, hi));
        k += 1;
    }
    let map = IdMap { pairs };
    proof {
        assert(map.pairs@ =~= want);
    }
    Some((offset, map))
}

/// The `k`-th parsed pair reads its sixteen bytes at position `16 k`.
proof fn lemma_parse_pairs_index(b: Seq<u8>, count: nat, k: int)
    requires
        0 <= k < count,
        b.len() >= 16 * count,
    ensures
        spec_parse_pairs(b, count).len() == count,
        spec_parse_pairs(b, count)[k] == (
            spec_u64_from_le_bytes(b.skip(16 * k).take(8)),
            spec_u64_from_le_bytes(b.skip(16 * k).subrange(8, 16)),
        ),
    decreases count,
{
    if count > 0 {
        if k == 0 {
            assert(b.skip(0) =~= b);
            lemma_parse_pairs_len(b.skip(16), (count - 1) as nat);
        } else {
            lemma_parse_pairs_index(b.skip(16), (count - 1) as nat, k - 1);
            assert(b.skip(16).skip(16 * (k - 1)) =~= b.skip(16 * k));
        }
    }
}

proof fn lemma_parse_pairs_len(b: Seq<u8>, count: nat)
    ensures
        spec_parse_pairs(b, count).len() == count,
    decreases count,
{
    if count > 0 {
        lemma_parse_pairs_len(b.skip(16), (count - 1) as nat);
    }
}

} // verus!
