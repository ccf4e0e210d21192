//! Ordinal remapping state: a partial map from old dictionary ordinals to new
//! ones, identity by default, held as pairs strictly ascending by key.
//!
//! A layer's remap chain is the parent chain's map extended with the layer's
//! own fragment; keys of the two parts never overlap, because a fragment only
//! covers the ordinals the layer itself introduces.

use vstd::prelude::*;

verus! {

/// The value `k` is mapped to by the pair list `s`, if any.
pub open spec fn spec_lookup(s: Seq<(u64, u64)>, k: u64) -> Option<u64>
    decreases s.len(),
{
    if s.len() == 0 {
        None
    } else if s[0].0 == k {
        Some(s[0].1)
    } else {
        spec_lookup(s.drop_first(), k)
    }
}

/// Where `s` maps `k`: the stored value, or `k` itself when absent.
pub open spec fn spec_apply(s: Seq<(u64, u64)>, k: u64) -> u64 {
    match spec_lookup(s, k) {
        Some(v) => v,
        None => k,
    }
}

/// Keys strictly ascend, so each key occurs at most once.
pub open spec fn spec_sorted_pairs(s: Seq<(u64, u64)>) -> bool {
    forall|a: int, b: int| 0 <= a < b < s.len() ==> s[a].0 < s[b].0
}

/// A found key is found at its index: under sortedness the stored pair is the
/// one that `spec_lookup` returns.
pub proof fn lemma_lookup_at_index(s: Seq<(u64, u64)>, i: int)
    requires
        spec_sorted_pairs(s),
        0 <= i < s.len(),
    ensures
        spec_lookup(s, s[i].0) == Some(s[i].1),
    decreases s.len(),
{
    if i > 0 {
        assert(s[0].0 < s[i].0);
        assert(s.drop_first()[i - 1] == s[i]);
        assert(spec_sorted_pairs(s.drop_first())) by {
            assert(forall|a: int, b: int|
                0 <= a < b < s.drop_first().len() ==> s.drop_first()[a] == s[a + 1]
                    && s.drop_first()[b] == s[b + 1]);
        }
        lemma_lookup_at_index(s.drop_first(), i - 1);
    }
}

/// A key held by no pair looks up to nothing.
pub proof fn lemma_lookup_absent(s: Seq<(u64, u64)>, k: u64)
    requires
        forall|i: int| 0 <= i < s.len() ==> (#[trigger] s[i]).0 != k,
    ensures
        spec_lookup(s, k) is None,
    decreases s.len(),
{
    if s.len() > 0 {
        assert(s[0].0 != k);
        assert(forall|i: int|
            0 <= i < s.drop_first().len() ==> (#[trigger] s.drop_first()[i]) == s[i + 1]);
        lemma_lookup_absent(s.drop_first(), k);
    }
}

/// Looking a key up in a concatenation reads the left part first.
pub proof fn lemma_lookup_concat(a: Seq<(u64, u64)>, b: Seq<(u64, u64)>, k: u64)
    ensures
        spec_lookup(a + b, k) == match spec_lookup(a, k) {
            Some(v) => Some(v),
            None => spec_lookup(b, k),
        },
    decreases a.len(),
{
    if a.len() == 0 {
        assert(a + b =~= b);
    } else {
        assert((a + b).drop_first() =~= a.drop_first() + b);
        lemma_lookup_concat(a.drop_first(), b, k);
    }
}

/// A remap: old ordinal to new ordinal, identity where no pair speaks.
pub struct IdMap {
    pub pairs: Vec<(u64, u64)>,
}

impl IdMap {
    /// The pairs are strictly ascending by key.
    pub open spec fn wf(&self) -> bool {
        spec_sorted_pairs(self.pairs@)
    }

    /// The stored image of `k`, if any.
    pub open spec fn spec_get(&self, k: u64) -> Option<u64> {
        spec_lookup(self.pairs@, k)
    }

    /// The image of `k`, with absent keys mapping to themselves.
    pub open spec fn spec_map(&self, k: u64) -> u64 {
        spec_apply(self.pairs@, k)
    }

    /// The empty map: every ordinal maps to itself.
    pub fn new() -> (r: IdMap)
        ensures
            r.wf(),
            r.pairs@ =~= Seq::<(u64, u64)>::empty(),
    {
        IdMap { pairs: Vec::new() }
    }

    pub fn len(&self) -> (r: usize)
        ensures
            r == self.pairs@.len(),
    {
        self.pairs.len()
    }

    /// Binary search for the stored image of `k`.
    pub fn get(&self, k: u64) -> (r: Option<u64>)
        requires
            self.wf(),
        ensures
            r == self.spec_get(k),
    {
        let mut lo: usize = 0;
        let mut hi: usize = self.pairs.len();
        while lo < hi
            invariant
                lo <= hi <= self.pairs@.len(),
                self.wf(),
                forall|i: int| 0 <= i < lo ==> (#[trigger] self.pairs@[i]).0 < k,
                forall|i: int|
                    hi <= i < self.pairs@.len() ==> (#[trigger] self.pairs@[i]).0 > k,
            decreases hi - lo,
        {
            let mid = lo + (hi - lo) / 2;
            let key = self.pairs[mid].0;
            if key == k {
                proof {
                    lemma_lookup_at_index(self.pairs@, mid as int);
                }
                return Some(self.pairs[mid].1);
            } else if key < k {
                lo = mid + 1;
            } else {
                hi = mid;
            }
        }
        proof {
            assert(forall|i: int| 0 <= i < self.pairs@.len() ==> (#[trigger] self.pairs@[i]).0 != k);
            lemma_lookup_absent(self.pairs@, k);
        }
        None
    }

    /// The image of `k`: the stored value, or `k` itself when absent.
    pub fn apply(&self, k: u64) -> (r: u64)
        requires
            self.wf(),
        ensures
            r == self.spec_map(k),
    {
        match self.get(k) {
            Some(v) => v,
            None => k,
        }
    }

    /// Extends the chain with a layer's fragment.  Every key already present
    /// lies below `bound`, every fragment key at or above it, so the result
    /// is again strictly ascending and the fragment never shadows the chain.
    pub fn extend_with(&mut self, frag: &IdMap, bound: u64)
        requires
            old(self).wf(),
            frag.wf(),
            forall|i: int|
                0 <= i < old(self).pairs@.len() ==> (#[trigger] old(self).pairs@[i]).0 < bound,
            forall|j: int| 0 <= j < frag.pairs@.len() ==> (#[trigger] frag.pairs@[j]).0 >= bound,
        ensures
            final(self).wf(),
            final(self).pairs@ == old(self).pairs@ + frag.pairs@,
    {
        let n = frag.pairs.len();
        let mut j: usize = 0;
        while j < n
            invariant
                j <= n,
                n == frag.pairs@.len(),
                self.pairs@ =~= old(self).pairs@ + frag.pairs@.subrange(0, j as int),
            decreases n - j,
        {
            self.pairs.push(frag.pairs[j]);
            j += 1;
            proof {
                assert(frag.pairs@.subrange(0, j as int) =~= frag.pairs@.subrange(
                    0,
                    j - 1,
                ).push(frag.pairs@[j - 1]));
            }
        }
        proof {
            assert(frag.pairs@.subrange(0, n as int) =~= frag.pairs@);
            assert(self.pairs@ =~= old(self).pairs@ + frag.pairs@);
        }
    }
}

/// Parent-first composition: on ordinals below the parent chain's bound, the
/// extended chain agrees with the parent chain, because every fragment key
/// lies at or above the bound.
pub proof fn lemma_chain_restriction(
    parent: Seq<(u64, u64)>,
    frag: Seq<(u64, u64)>,
    bound: u64,
    k: u64,
)
    requires
        forall|j: int| 0 <= j < frag.len() ==> (#[trigger] frag[j]).0 >= bound,
        k < bound,
    ensures
        spec_lookup(parent + frag, k) == spec_lookup(parent, k),
        spec_apply(parent + frag, k) == spec_apply(parent, k),
{
    lemma_lookup_concat(parent, frag, k);
    lemma_lookup_absent(frag, k);
}

} // verus!
