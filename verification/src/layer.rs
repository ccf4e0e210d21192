//! Driver-side rules of the migration: how layers are named, where a layer's
//! remap state lives in the workdir, which layers are transcoded at all, in
//! what order layers may be processed, and the errors a layer conversion can
//! surface.
//!
//! A layer is named by forty lowercase hex characters; the store groups the
//! on-disk files by the first three.  A child layer may only be processed
//! after its parent, because it needs the parent's remap state.

use vstd::prelude::*;
use vstd::string::StrSliceExecFns;
use vstd::string::StringExecFns;
use crate::escape::spec_hex_digit;

verus! {

/// What went wrong while loading a parent's remap state.
#[derive(Debug, Clone)]
pub enum InnerParentMapError {
    /// The workdir holds no state for the parent.
    ParentMapNotFound,
    /// Reading the state file failed; the detail text tells how.
    Io(String),
    /// The state file's bytes are no well-formed remap state.
    Deserialization(String),
}

/// A parent-map failure, tied to the parent it concerns where one is known.
#[derive(Debug, Clone)]
pub enum ParentMapError {
    /// Identifying the parent itself failed.
    Io(String),
    /// The parent is known but its state could not be loaded.
    Other { parent: String, source: InnerParentMapError },
}

impl InnerParentMapError {
    /// A short account of the failure, for reporting.
    pub fn describe(&self) -> String {
        match self {
            InnerParentMapError::ParentMapNotFound => "not found".to_owned(),
            InnerParentMapError::Io(detail) => {
                let mut out = "i/o error: ".to_owned();
                out.append(detail.as_str());
                out
            },
            InnerParentMapError::Deserialization(detail) => {
                let mut out = "unreadable remap state: ".to_owned();
                out.append(detail.as_str());
                out
            },
        }
    }
}

impl ParentMapError {
    /// Ties a load failure to the parent layer it concerns.
    pub fn new(parent: String, source: InnerParentMapError) -> (r: Self)
        ensures
            r == (ParentMapError::Other { parent, source }),
    {
        ParentMapError::Other { parent, source }
    }

    /// A short account of the failure, for reporting.
    pub fn describe(&self) -> String {
        match self {
            ParentMapError::Io(detail) => {
                let mut out = "i/o error: ".to_owned();
                out.append(detail.as_str());
                out
            },
            ParentMapError::Other { parent, source } => {
                let mut out = "couldn't load parent map ".to_owned();
                out.append(parent.as_str());
                out.append(": ");
                let tail = source.describe();
                out.append(tail.as_str());
                out
            },
        }
    }
}

/// What can stop the conversion of one layer.
#[derive(Debug, Clone)]
pub enum InnerLayerConversionError {
    /// The output store already holds this layer.
    LayerAlreadyConverted,
    /// Copying an unchanged file failed.
    FileCopyError { name: String, detail: String },
    /// The parent's remap state could not be loaded.
    ParentMap(ParentMapError),
    /// Rewriting a triple column failed.
    TripleConversionError(String),
    /// The object index could not be rebuilt.
    RebuildIndexError(String),
    /// Committing the output layer failed.
    FinalizationError(String),
    /// Writing this layer's remap state failed.
    ParentMapWriteError(String),
    /// Any other input/output failure.
    Io(String),
    /// The input already carries a node-value remap, so it has been migrated
    /// before.
    NodeValueRemapExists,
}

/// A layer conversion failure, tied to the layer it concerns.
#[derive(Debug, Clone)]
pub struct LayerConversionError {
    pub layer: String,
    pub source: InnerLayerConversionError,
}

impl InnerLayerConversionError {
    /// A short account of the failure, for reporting.
    pub fn describe(&self) -> String {
        match self {
            InnerLayerConversionError::LayerAlreadyConverted => {
                "layer was already converted".to_owned()
            },
            InnerLayerConversionError::FileCopyError { name, detail } => {
                let mut out = "failed to copy ".to_owned();
                out.append(name.as_str());
                out.append(": ");
                out.append(detail.as_str());
                out
            },
            InnerLayerConversionError::ParentMap(source) => source.describe(),
            InnerLayerConversionError::TripleConversionError(detail) => {
                let mut out = "failed to convert triple map: ".to_owned();
                out.append(detail.as_str());
                out
            },
            InnerLayerConversionError::RebuildIndexError(detail) => {
                let mut out = "failed to rebuild indexes: ".to_owned();
                out.append(detail.as_str());
                out
            },
            InnerLayerConversionError::FinalizationError(detail) => {
                let mut out = "failed to finalize layer: ".to_owned();
                out.append(detail.as_str());
                out
            },
            InnerLayerConversionError::ParentMapWriteError(detail) => {
                let mut out = "failed to write the parent map: ".to_owned();
                out.append(detail.as_str());
                out
            },
            InnerLayerConversionError::Io(detail) => {
                let mut out = "i/o error: ".to_owned();
                out.append(detail.as_str());
                out
            },
            InnerLayerConversionError::NodeValueRemapExists => {
                "a nodevalue remap file exists but was not expected".to_owned()
            },
        }
    }
}

impl LayerConversionError {
    /// Ties a failure to the layer it concerns.
    pub fn new(layer: String, source: InnerLayerConversionError) -> (r: Self)
        ensures
            r == (LayerConversionError { layer, source }),
    {
        LayerConversionError { layer, source }
    }

    /// A short account of the failure, for reporting.
    pub fn describe(&self) -> String {
        let mut out = "failed to convert layer ".to_owned();
        out.append(self.layer.as_str());
        out.append(": ");
        let tail = self.source.describe();
        out.append(tail.as_str());
        out
    }
}

/// Lowercase hexadecimal: the digits and `a` through `f`.
pub open spec fn spec_is_lower_hex(c: char) -> bool {
    spec_hex_digit(c) is Some && !('A' <= c && c <= 'F')
}

/// A layer name: exactly forty lowercase hex characters.
pub open spec fn spec_is_layer_name(s: Seq<char>) -> bool {
    s.len() == 40 && forall|k: int| 0 <= k < s.len() ==> spec_is_lower_hex(#[trigger] s[k])
}

/// A prefix directory name: exactly three lowercase hex characters.
pub open spec fn spec_is_prefix_dir_name(s: Seq<char>) -> bool {
    s.len() == 3 && forall|k: int| 0 <= k < s.len() ==> spec_is_lower_hex(#[trigger] s[k])
}

fn is_lower_hex(c: char) -> (r: bool)
    ensures
        r == spec_is_lower_hex(c),
{
    let v = c as u32;
    (48 <= v && v <= 57) || (97 <= v && v <= 102)
}

fn all_lower_hex(s: &str) -> (r: bool)
    ensures
        r == forall|k: int| 0 <= k < s@.len() ==> spec_is_lower_hex(#[trigger] s@[k]),
{
    let n = s.unicode_len();
    let mut i: usize = 0;
    while i < n
        invariant
            i <= n,
            n == s@.len(),
            forall|k: int| 0 <= k < i ==> spec_is_lower_hex(#[trigger] s@[k]),
        decreases n - i,
    {
        if !is_lower_hex(s.get_char(i)) {
            return false;
        }
        i += 1;
    }
    true
}

/// Is `s` a layer name: forty lowercase hex characters?
pub fn is_layer_name(s: &str) -> (r: bool)
    ensures
        r == spec_is_layer_name(s@),
{
    s.unicode_len() == 40 && all_lower_hex(s)
}

/// Is `s` a store prefix directory name: three lowercase hex characters?
pub fn is_prefix_dir_name(s: &str) -> (r: bool)
    ensures
        r == spec_is_prefix_dir_name(s@),
{
    s.unicode_len() == 3 && all_lower_hex(s)
}

/// Where a layer's remap state lives under the workdir: grouped by the first
/// three characters of the layer name, under the full name.
pub fn path_for_parent_map(workdir: &str, name: &str) -> (r: String)
    requires
        spec_is_layer_name(name@),
    ensures
        r@ == workdir@ + "/"@ + name@.take(3) + "/"@ + name@ + ".parentmap"@,
{
    let prefix = name.substring_char(0, 3);
    let mut out = workdir.to_owned();
    out.append("/");
    out.append(prefix);
    out.append("/");
    out.append(name);
    out.append(".parentmap");
    out
}

/// The cutoff rule: a layer created at or before the cutoff belongs to the
/// old format and is transcoded; one created after it was written by the new
/// format's writer and is copied untouched.
pub fn should_transcode(created: i64, cutoff: i64) -> (r: bool)
    ensures
        r == (created <= cutoff),
{
    created <= cutoff
}

/// Layer `i` cannot run yet: it names a parent that some unprocessed layer
/// carries.
pub open spec fn spec_blocked(
    layers: Seq<(String, Option<String>)>,
    done: Seq<bool>,
    i: int,
) -> bool {
    layers[i].1 is Some && exists|j: int|
        0 <= j < layers.len() && !done[j] && (#[trigger] layers[j]).0@ == layers[i].1->0@
}

/// How many entries of `done` are still unset.
pub open spec fn spec_count_false(done: Seq<bool>) -> int
    decreases done.len(),
{
    if done.len() == 0 {
        0
    } else {
        spec_count_false(done.drop_last()) + (if done.last() {
            0int
        } else {
            1int
        })
    }
}

proof fn lemma_count_false_nonneg(done: Seq<bool>)
    ensures
        0 <= spec_count_false(done) <= done.len(),
    decreases done.len(),
{
    if done.len() > 0 {
        lemma_count_false_nonneg(done.drop_last());
    }
}

proof fn lemma_count_false_set(done: Seq<bool>, i: int)
    requires
        0 <= i < done.len(),
        !done[i],
    ensures
        spec_count_false(done.update(i, true)) == spec_count_false(done) - 1,
    decreases done.len(),
{
    let upd = done.update(i, true);
    if i == done.len() - 1 {
        assert(upd.drop_last() =~= done.drop_last());
    } else {
        assert(upd.drop_last() =~= done.drop_last().update(i, true));
        assert(upd.last() == done.last());
        lemma_count_false_set(done.drop_last(), i);
    }
}

proof fn lemma_count_false_all_true(done: Seq<bool>)
    requires
        forall|j: int| 0 <= j < done.len() ==> #[trigger] done[j],
    ensures
        spec_count_false(done) == 0,
    decreases done.len(),
{
    if done.len() > 0 {
        assert(forall|j: int| 0 <= j < done.drop_last().len() ==> #[trigger] done.drop_last()[j]);
        lemma_count_false_all_true(done.drop_last());
    }
}

proof fn lemma_count_false_all_false(done: Seq<bool>)
    requires
        forall|j: int| 0 <= j < done.len() ==> !(#[trigger] done[j]),
    ensures
        spec_count_false(done) == done.len(),
    decreases done.len(),
{
    if done.len() > 0 {
        assert(forall|j: int|
            0 <= j < done.drop_last().len() ==> !(#[trigger] done.drop_last()[j]));
        lemma_count_false_all_false(done.drop_last());
    }
}

/// Orders layers parent-first.
///
/// Each element pairs a layer name with its parent's name, where it has one.
/// On success the returned positions list every layer exactly once, and any
/// layer that names another listed layer as its parent comes after it.  On
/// failure the returned set of positions is nonempty and every member's
/// parent is carried by a member: the layers block each other in a cycle.
pub fn order_layers(layers: &Vec<(String, Option<String>)>) -> (r: Result<Vec<usize>, Vec<usize>>)
    ensures
        r matches Ok(order) ==> ({
            &&& forall|a: int| 0 <= a < order@.len() ==> (#[trigger] order@[a]) < layers@.len()
            &&& forall|a: int, b: int|
                0 <= a < b < order@.len() ==> order@[a] != order@[b]
            &&& order@.len() == layers@.len()
            &&& forall|b: int, j: int|
                0 <= b < order@.len() && 0 <= j < layers@.len() && layers@[order@[b] as int].1
                    is Some && (#[trigger] layers@[j]).0@ == (#[trigger] layers@[order@[b] as int]).1->0@
                    ==> exists|a: int| 0 <= a < b && order@[a] == j
        }),
        r matches Err(stuck) ==> ({
            &&& stuck@.len() > 0
            &&& forall|k: int| 0 <= k < stuck@.len() ==> (#[trigger] stuck@[k]) < layers@.len()
            &&& forall|k: int|
                0 <= k < stuck@.len() ==> (#[trigger] layers@[stuck@[k] as int]).1 is Some
            &&& forall|k: int|
                0 <= k < stuck@.len() ==> exists|m: int|
                    0 <= m < stuck@.len() && layers@[stuck@[m] as int].0@ == layers@[(
                    #[trigger] stuck@[k]) as int].1->0@
        }),
{
    let n = layers.len();
    let mut done: Vec<bool> = Vec::new();
    while done.len() < n
        invariant
            done@.len() <= n,
            forall|j: int| 0 <= j < done@.len() ==> !(#[trigger] done@[j]),
        decreases n - done@.len(),
    {
        done.push(false);
    }
    proof {
        lemma_count_false_all_false(done@);
    }
    let mut order: Vec<usize> = Vec::new();
    let mut progress = true;
    while progress
        invariant
            n == layers@.len(),
            done@.len() == n,
            order@.len() + spec_count_false(done@) == n,
            order@.len() <= n,
            forall|j: int|
                0 <= j < n ==> ((#[trigger] done@[j]) <==> exists|a: int|
                    0 <= a < order@.len() && order@[a] == j),
            forall|a: int, b: int| 0 <= a < b < order@.len() ==> order@[a] != order@[b],
            forall|a: int| 0 <= a < order@.len() ==> (#[trigger] order@[a]) < n,
            forall|b: int, j: int|
                0 <= b < order@.len() && 0 <= j < n && layers@[order@[b] as int].1 is Some && (
                #[trigger] layers@[j]).0@ == (#[trigger] layers@[order@[b] as int]).1->0@
                    ==> exists|a: int| 0 <= a < b && order@[a] == j,
            !progress ==> forall|j: int| 0 <= j < n && !done@[j] ==> spec_blocked(
                layers@,
                done@,
                j,
            ),
        decreases n - order@.len() + (if progress { 1int } else { 0int }),
    {
        progress = false;
        let ghost done_at_pass_start = done@;
        let ghost order_len_at_pass_start = order@.len();
        let mut i: usize = 0;
        while i < n
            invariant
                i <= n,
                n == layers@.len(),
                done@.len() == n,
                order@.len() + spec_count_false(done@) == n,
                order@.len() <= n,
                forall|j: int|
                    0 <= j < n ==> ((#[trigger] done@[j]) <==> exists|a: int|
                        0 <= a < order@.len() && order@[a] == j),
                forall|a: int, b: int| 0 <= a < b < order@.len() ==> order@[a] != order@[b],
                forall|a: int| 0 <= a < order@.len() ==> (#[trigger] order@[a]) < n,
                forall|b: int, j: int|
                    0 <= b < order@.len() && 0 <= j < n && layers@[order@[b] as int].1 is Some && (
                    #[trigger] layers@[j]).0@ == (#[trigger] layers@[order@[b] as int]).1->0@
                        ==> exists|a: int| 0 <= a < b && order@[a] == j,
                order_len_at_pass_start <= order@.len(),
                progress ==> order@.len() > order_len_at_pass_start,
                !progress ==> done@ == done_at_pass_start,
                !progress ==> order@.len() == order_len_at_pass_start,
                !progress ==> forall|j: int|
                    0 <= j < i && !done@[j] ==> spec_blocked(layers@, done@, j),
            decreases n - i,
        {
            if !done[i] {
                let ready = match &layers[i].1 {
                    None => true,
                    Some(parent) => {
                        let mut blocked = false;
                        let mut j: usize = 0;
                        while j < n
                            invariant
                                j <= n,
                                n == layers@.len(),
                                done@.len() == n,
                                i < n,
                                layers@[i as int].1 is Some,
                                parent == layers@[i as int].1->0,
                                blocked ==> spec_blocked(layers@, done@, i as int),
                                !blocked ==> forall|j2: int|
                                    0 <= j2 < j ==> !(!done@[j2] && (#[trigger] layers@[j2]).0@
                                        == layers@[i as int].1->0@),
                            decreases n - j,
                        {
                            if !done[j] && layers[j].0.eq(parent) {
                                blocked = true;
                            }
                            j += 1;
                        }
                        !blocked
                    },
                };
                if ready {
                    let ghost order_before = order@;
                    let ghost done_before = done@;
                    order.push(i);
                    done.set(i, true);
                    progress = true;
                    proof {
                        lemma_count_false_set(done_before, i as int);
                        lemma_count_false_nonneg(done@);
                        let b = order_before.len() as int;
                        assert(order@ =~= order_before.push(i as usize));
                        assert(done@ =~= done_before.update(i as int, true));
                        assert forall|j: int|
                            0 <= j < n implies ((#[trigger] done@[j]) <==> exists|a: int|
                            0 <= a < order@.len() && order@[a] == j) by {
                            if j == i as int {
                                assert(order@[b] == j);
                            } else {
                                if done@[j] {
                                    let a = choose|a: int|
                                        0 <= a < order_before.len() && order_before[a] == j;
                                    assert(order@[a] == j);
                                } else {
                                    if exists|a: int|
                                        0 <= a < order@.len() && order@[a] == j {
                                        let a = choose|a: int|
                                            0 <= a < order@.len() && order@[a] == j;
                                        assert(a < b);
                                        assert(order_before[a] == j);
                                    }
                                }
                            }
                        }
                        assert forall|bb: int, j: int|
                            0 <= bb < order@.len() && 0 <= j < n && layers@[order@[bb] as int].1
                                is Some && (#[trigger] layers@[j]).0@ == (
                            #[trigger] layers@[order@[bb] as int]).1->0@ implies exists|a: int|
                            0 <= a < bb && order@[a] == j by {
                            if bb < b {
                                assert(order@[bb] == order_before[bb]);
                                let a = choose|a: int| 0 <= a < bb && order_before[a] == j;
                                assert(order@[a] == j);
                            } else {
                                assert(order@[bb] == i as usize);
                                // readiness: every layer named like the parent is done
                                assert(done_before[j]);
                                let a = choose|a: int|
                                    0 <= a < order_before.len() && order_before[a] == j;
                                assert(order@[a] == j && a < bb);
                            }
                        }
                    }
                }
            }
            i += 1;
        }
    }
    // no pass makes progress any more: whatever is left blocks on itself
    let mut stuck: Vec<usize> = Vec::new();
    let mut i: usize = 0;
    while i < n
        invariant
            i <= n,
            n == layers@.len(),
            done@.len() == n,
            forall|j: int| 0 <= j < n && !done@[j] ==> spec_blocked(layers@, done@, j),
            forall|k: int| 0 <= k < stuck@.len() ==> (#[trigger] stuck@[k]) < n,
            forall|k: int| 0 <= k < stuck@.len() ==> !done@[stuck@[k] as int],
            forall|j: int|
                0 <= j < i && !done@[j] ==> exists|m: int|
                    0 <= m < stuck@.len() && (#[trigger] stuck@[m]) == j,
            forall|j: int|
                0 <= j < n ==> ((#[trigger] done@[j]) <==> exists|a: int|
                    0 <= a < order@.len() && order@[a] == j),
            forall|a: int, b: int| 0 <= a < b < order@.len() ==> order@[a] != order@[b],
            forall|a: int| 0 <= a < order@.len() ==> (#[trigger] order@[a]) < n,
            forall|b: int, j: int|
                0 <= b < order@.len() && 0 <= j < n && layers@[order@[b] as int].1 is Some && (
                #[trigger] layers@[j]).0@ == (#[trigger] layers@[order@[b] as int]).1->0@
                    ==> exists|a: int| 0 <= a < b && order@[a] == j,
        decreases n - i,
    {
        if !done[i] {
            let ghost stuck_before = stuck@;
            stuck.push(i);
            proof {
                assert forall|j: int| 0 <= j < i + 1 && !done@[j] implies exists|m: int|
                    0 <= m < stuck@.len() && (#[trigger] stuck@[m]) == j by {
                    if j == i as int {
                        assert(stuck@[stuck@.len() - 1] == i as usize);
                    } else {
                        let m = choose|m: int|
                            0 <= m < stuck_before.len() && (#[trigger] stuck_before[m]) == j;
                        assert(stuck@[m] == j);
                    }
                }
            }
        }
        i += 1;
    }
    if stuck.len() == 0 {
        proof {
            assert forall|j: int| 0 <= j < n implies #[trigger] done@[j] by {
                if !done@[j] {
                    let m = choose|m: int| 0 <= m < stuck@.len() && (#[trigger] stuck@[m]) == j;
                }
            }
            lemma_count_false_all_true(done@);
        }
        Ok(order)
    } else {
        proof {
            assert forall|k: int| 0 <= k < stuck@.len() implies exists|m: int|
                0 <= m < stuck@.len() && layers@[stuck@[m] as int].0@ == layers@[(
            #[trigger] stuck@[k]) as int].1->0@ by {
                let ii = stuck@[k] as int;
                assert(spec_blocked(layers@, done@, ii));
                let j = choose|j: int|
                    0 <= j < layers@.len() && !done@[j] && (#[trigger] layers@[j]).0@
                        == layers@[ii].1->0@;
                let m = choose|m: int| 0 <= m < stuck@.len() && (#[trigger] stuck@[m]) == j;
                assert(stuck@[m] == j);
            }
        }
        Err(stuck)
    }
}

} // verus!
