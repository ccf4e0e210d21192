//! The typed value dictionary and its transcoder.
//!
//! An entry pairs a datatype tag with its stored payload.  Entries of a
//! string-like datatype, and lang-tagged strings, carry text; every other
//! datatype is opaque here and its payload is kept as raw bytes.  The global
//! dictionary order sorts first by datatype tag, then by payload, which for
//! text is the code-point order of its characters.
//!
//! Transcoding decodes the text payloads, watches the order, and — when
//! decoding changed any entry's rank — rebuilds the order and returns the
//! fragment of the old-ordinal to new-ordinal map that the layer introduces.

use vstd::prelude::*;
use crate::escape::DecodeError;
use crate::idmap::IdMap;
use crate::idmap::spec_apply;
use crate::idmap::spec_lookup;
use crate::idmap::lemma_lookup_at_index;
use crate::escape::decode_literal_chars;
use crate::escape::spec_decode;

verus! {

/// Datatype tag of plain strings.
pub const STRING_CODE: u8 = 0;

/// Datatype tag of lang-tagged strings, stored as `{lang}@{value}`.
pub const LANG_STRING_CODE: u8 = 10;

/// The datatype tags whose payload is an escaped string literal: plain
/// strings (tag 0), the contiguous run of named string kinds (tags 11 to 22),
/// and the catch-all simple type (tag 45).
pub open spec fn spec_is_string_like(code: u8) -> bool {
    code == 0 || (11 <= code && code <= 22) || code == 45
}

/// Executable form of [`spec_is_string_like`].
pub fn is_string_like(code: u8) -> (r: bool)
    ensures
        r == spec_is_string_like(code),
{
    code == 0 || (11 <= code && code <= 22) || code == 45
}

/// Payload of a dictionary entry.
pub enum EntryBody {
    /// An escaped string literal (string-like and lang-tagged datatypes).
    Text(Vec<char>),
    /// The stored bytes of any other datatype, passed through untouched.
    Raw(Vec<u8>),
}

/// One dictionary entry: a datatype tag and its payload.
pub struct DictEntry {
    pub code: u8,
    pub body: EntryBody,
}

/// Mathematical form of a payload.
pub enum BodyModel {
    Text(Seq<char>),
    Raw(Seq<u8>),
}

/// Mathematical form of an entry.
pub struct EntryModel {
    pub code: u8,
    pub body: BodyModel,
}

impl View for DictEntry {
    type V = EntryModel;

    open spec fn view(&self) -> EntryModel {
        EntryModel {
            code: self.code,
            body: match self.body {
                EntryBody::Text(v) => BodyModel::Text(v@),
                EntryBody::Raw(b) => BodyModel::Raw(b@),
            },
        }
    }
}

/// The models of a run of entries.
pub open spec fn spec_models(s: Seq<DictEntry>) -> Seq<EntryModel> {
    Seq::new(s.len(), |i: int| s[i]@)
}

/// Structural agreement of tag and payload: text exactly for the string-like
/// and lang-tagged datatypes.
pub open spec fn spec_entry_wf(m: EntryModel) -> bool {
    (m.body is Text) <==> (spec_is_string_like(m.code) || m.code == LANG_STRING_CODE)
}

/// The sort key of an entry: its datatype tag, followed by its payload, each
/// element widened to one ordering domain.
#[verifier::opaque]
pub open spec fn spec_entry_key(m: EntryModel) -> Seq<u64> {
    seq![m.code as u64] + match m.body {
        BodyModel::Text(t) => Seq::new(t.len(), |i: int| t[i] as u64),
        BodyModel::Raw(b) => Seq::new(b.len(), |i: int| b[i] as u64),
    }
}

/// Three-way comparison result.
#[derive(Clone, Copy, Debug, PartialEq, Eq, Structural)]
pub enum KeyOrder {
    Before,
    Same,
    After,
}

/// Lexicographic three-way comparison of keys, from position `i` on.
pub open spec fn spec_key_cmp_from(a: Seq<u64>, b: Seq<u64>, i: int) -> KeyOrder
    decreases a.len() - i,
{
    if i < 0 {
        KeyOrder::Same
    } else if i >= a.len() && i >= b.len() {
        KeyOrder::Same
    } else if i >= a.len() {
        KeyOrder::Before
    } else if i >= b.len() {
        KeyOrder::After
    } else if a[i] < b[i] {
        KeyOrder::Before
    } else if a[i] > b[i] {
        KeyOrder::After
    } else {
        spec_key_cmp_from(a, b, i + 1)
    }
}

/// Lexicographic three-way comparison of keys.
pub open spec fn spec_key_cmp(a: Seq<u64>, b: Seq<u64>) -> KeyOrder {
    spec_key_cmp_from(a, b, 0)
}

/// `Same` means equality; `Before` and `After` mirror each other.
pub proof fn lemma_key_cmp_from(a: Seq<u64>, b: Seq<u64>, i: int)
    requires
        0 <= i <= a.len(),
        i <= b.len(),
        forall|k: int| 0 <= k < i ==> a[k] == b[k],
    ensures
        spec_key_cmp_from(a, b, i) == KeyOrder::Same <==> a == b,
        spec_key_cmp_from(a, b, i) == KeyOrder::Before <==> spec_key_cmp_from(b, a, i)
            == KeyOrder::After,
    decreases a.len() - i,
{
    if i < a.len() && i < b.len() && a[i] == b[i] {
        lemma_key_cmp_from(a, b, i + 1);
    } else {
        if i >= a.len() && i >= b.len() {
            assert(a =~= b);
        }
        if a == b {
        } else {
            assert(!(a =~= b));
        }
    }
}

/// Comparison from a position behind which both keys agree equals comparison
/// from the start.
pub proof fn lemma_key_cmp_prefix(a: Seq<u64>, b: Seq<u64>, i: int)
    requires
        0 <= i <= a.len(),
        i <= b.len(),
        forall|k: int| 0 <= k < i ==> a[k] == b[k],
    ensures
        spec_key_cmp(a, b) == spec_key_cmp_from(a, b, i),
    decreases i,
{
    if i > 0 {
        lemma_key_cmp_prefix(a, b, i - 1);
    }
}

/// Transitivity of the key order.
pub proof fn lemma_key_cmp_trans(a: Seq<u64>, b: Seq<u64>, c: Seq<u64>, i: int)
    requires
        i >= 0,
        spec_key_cmp_from(a, b, i) == KeyOrder::Before,
        spec_key_cmp_from(b, c, i) == KeyOrder::Before,
    ensures
        spec_key_cmp_from(a, c, i) == KeyOrder::Before,
    decreases a.len() + b.len() + c.len() - 3 * i,
{
    if i >= a.len() {
    } else {
        // a has an element at i, hence so does b, and the b/c comparison
        // settles how a[i] relates to c[i]
        if i < b.len() && i < c.len() && a[i] == b[i] && b[i] == c[i] {
            lemma_key_cmp_trans(a, b, c, i + 1);
        }
    }
}

/// Compares two payload tails element by element, continuing a key
/// comparison whose first position (the tag) already agreed.
fn compare_tail_u64(ghost_ka: Ghost<Seq<u64>>, ghost_kb: Ghost<Seq<u64>>, x: &Vec<u64>, y: &Vec<u64>) -> (r: KeyOrder)
    requires
        ghost_ka@.len() == x@.len() + 1,
        ghost_kb@.len() == y@.len() + 1,
        ghost_ka@[0] == ghost_kb@[0],
        forall|k: int| 1 <= k < ghost_ka@.len() ==> ghost_ka@[k] == x@[k - 1],
        forall|k: int| 1 <= k < ghost_kb@.len() ==> ghost_kb@[k] == y@[k - 1],
    ensures
        r == spec_key_cmp(ghost_ka@, ghost_kb@),
{
    let ghost ka = ghost_ka@;
    let ghost kb = ghost_kb@;
    let n = x.len();
    let m = y.len();
    let mut i: usize = 0;
    loop
        invariant
            ka == ghost_ka@,
            kb == ghost_kb@,
            i <= n,
            i <= m,
            n == x@.len(),
            m == y@.len(),
            ka.len() == n + 1,
            kb.len() == m + 1,
            ka[0] == kb[0],
            forall|k: int| 1 <= k < ka.len() ==> ka[k] == x@[k - 1],
            forall|k: int| 1 <= k < kb.len() ==> kb[k] == y@[k - 1],
            forall|k: int| 0 <= k < i + 1 ==> ka[k] == kb[k],
        decreases n - i,
    {
        proof {
            lemma_key_cmp_prefix(ka, kb, i + 1);
        }
        if i >= n && i >= m {
            return KeyOrder::Same;
        }
        if i >= n {
            return KeyOrder::Before;
        }
        if i >= m {
            return KeyOrder::After;
        }
        let cx = x[i];
        let cy = y[i];
        if cx < cy {
            return KeyOrder::Before;
        }
        if cx > cy {
            return KeyOrder::After;
        }
        i += 1;
    }
}

/// The payload of an entry, element by element, in the ordering domain.
fn widen_payload(e: &DictEntry) -> (r: Vec<u64>)
    ensures
        r@.len() + 1 == spec_entry_key(e@).len(),
        forall|k: int| 1 <= k < spec_entry_key(e@).len() ==> spec_entry_key(e@)[k] == r@[k - 1],
{
    proof {
        reveal(spec_entry_key);
    }
    let ghost key = spec_entry_key(e@);
    let mut r: Vec<u64> = Vec::new();
    match &e.body {
        EntryBody::Text(v) => {
            let n = v.len();
            let mut i: usize = 0;
            while i < n
                invariant
                    i <= n,
                    n == v@.len(),
                    e.body matches EntryBody::Text(w) && w == v,
                    r@.len() == i,
                    forall|k: int| 0 <= k < i ==> r@[k] == v@[k] as u64,
                decreases n - i,
            {
                r.push(v[i] as u64);
                i += 1;
            }
        },
        EntryBody::Raw(b) => {
            let n = b.len();
            let mut i: usize = 0;
            while i < n
                invariant
                    i <= n,
                    n == b@.len(),
                    e.body matches EntryBody::Raw(w) && w == b,
                    r@.len() == i,
                    forall|k: int| 0 <= k < i ==> r@[k] == b@[k] as u64,
                decreases n - i,
            {
                r.push(b[i] as u64);
                i += 1;
            }
        },
    }
    r
}

/// Compares two entries in the global dictionary order: by datatype tag
/// first, then by payload.
pub fn compare_entries(a: &DictEntry, b: &DictEntry) -> (r: KeyOrder)
    ensures
        r == spec_key_cmp(spec_entry_key(a@), spec_entry_key(b@)),
{
    proof {
        reveal(spec_entry_key);
    }
    let ghost ka = spec_entry_key(a@);
    let ghost kb = spec_entry_key(b@);
    if a.code < b.code {
        proof {
            assert(ka[0] < kb[0]);
        }
        return KeyOrder::Before;
    }
    if a.code > b.code {
        proof {
            assert(ka[0] > kb[0]);
        }
        return KeyOrder::After;
    }
    proof {
        assert(ka[0] == kb[0]);
    }
    let xs = widen_payload(a);
    let ys = widen_payload(b);
    compare_tail_u64(Ghost(ka), Ghost(kb), &xs, &ys)
}

/// Why transcoding a dictionary failed.
#[derive(Clone, Copy, Debug, PartialEq, Eq, Structural)]
pub enum DictError {
    /// A text payload broke the escape grammar.
    Escape(DecodeError),
    /// A lang-tagged entry had no `@` between language and value.
    LangStringWithoutTag,
    /// Decoding collapsed two neighbouring entries into one.
    DuplicateAfterDecode,
}

/// Index of the first `@` in `t` at or after `i`, or `t.len()` when there is
/// none.
pub open spec fn spec_first_at(t: Seq<char>, i: int) -> int
    decreases t.len() - i,
{
    if i < 0 || i >= t.len() {
        t.len() as int
    } else if t[i] == '@' {
        i
    } else {
        spec_first_at(t, i + 1)
    }
}

proof fn lemma_first_at(t: Seq<char>, i: int)
    requires
        0 <= i <= t.len(),
    ensures
        i <= spec_first_at(t, i) <= t.len(),
        spec_first_at(t, i) < t.len() ==> t[spec_first_at(t, i)] == '@',
        forall|k: int| i <= k < spec_first_at(t, i) ==> t[k] != '@',
    decreases t.len() - i,
{
    if i < t.len() && t[i] != '@' {
        lemma_first_at(t, i + 1);
    }
}

/// The next entry that transcoding emits for `m`: string-like payloads are
/// decoded and re-tagged as plain strings; a lang-tagged payload keeps its
/// language part up to and including the `@` and decodes the rest; any other
/// entry passes through unchanged.
#[verifier::opaque]
pub open spec fn spec_decode_entry(m: EntryModel) -> Result<EntryModel, DictError> {
    match m.body {
        BodyModel::Text(t) => {
            if m.code == LANG_STRING_CODE {
                let p = spec_first_at(t, 0);
                if p >= t.len() {
                    Err(DictError::LangStringWithoutTag)
                } else {
                    match spec_decode(t.skip(p + 1)) {
                        Ok(d) => Ok(
                            EntryModel {
                                code: LANG_STRING_CODE,
                                body: BodyModel::Text(t.take(p + 1) + d),
                            },
                        ),
                        Err(e) => Err(DictError::Escape(e)),
                    }
                }
            } else {
                match spec_decode(t) {
                    Ok(d) => Ok(EntryModel { code: STRING_CODE, body: BodyModel::Text(d) }),
                    Err(e) => Err(DictError::Escape(e)),
                }
            }
        },
        BodyModel::Raw(_) => Ok(m),
    }
}

/// A decoded entry is still well formed.
pub proof fn lemma_decode_entry_wf(m: EntryModel)
    requires
        spec_entry_wf(m),
        spec_decode_entry(m) is Ok,
    ensures
        spec_entry_wf(spec_decode_entry(m)->Ok_0),
{
    reveal(spec_decode_entry);
}

fn copy_chars_range(v: &Vec<char>, a: usize, b: usize) -> (r: Vec<char>)
    requires
        a <= b <= v@.len(),
    ensures
        r@ == v@.subrange(a as int, b as int),
{
    let mut r: Vec<char> = Vec::new();
    let mut i = a;
    while i < b
        invariant
            a <= i <= b <= v@.len(),
            r@ =~= v@.subrange(a as int, i as int),
        decreases b - i,
    {
        r.push(v[i]);
        i += 1;
        proof {
            assert(r@ =~= v@.subrange(a as int, i as int));
        }
    }
    proof {
        assert(r@ =~= v@.subrange(a as int, b as int));
    }
    r
}

fn copy_bytes(v: &Vec<u8>) -> (r: Vec<u8>)
    ensures
        r@ == v@,
{
    let n = v.len();
    let mut r: Vec<u8> = Vec::new();
    let mut i: usize = 0;
    while i < n
        invariant
            i <= n,
            n == v@.len(),
            r@ =~= v@.subrange(0, i as int),
        decreases n - i,
    {
        r.push(v[i]);
        i += 1;
        proof {
            assert(r@ =~= v@.subrange(0, i as int));
        }
    }
    proof {
        assert(v@.subrange(0, n as int) =~= v@);
    }
    r
}

fn find_at_sign(v: &Vec<char>) -> (r: usize)
    ensures
        r == spec_first_at(v@, 0),
{
    proof {
        lemma_first_at(v@, 0);
    }
    let n = v.len();
    let mut i: usize = 0;
    while i < n && v[i] != '@'
        invariant
            i <= n,
            n == v@.len(),
            forall|k: int| 0 <= k < i ==> v@[k] != '@',
            spec_first_at(v@, 0) >= i,
        decreases n - i,
    {
        i += 1;
        proof {
            lemma_first_at(v@, 0);
            if spec_first_at(v@, 0) < i {
                assert(v@[spec_first_at(v@, 0)] == '@');
            }
        }
    }
    proof {
        lemma_first_at(v@, 0);
        if i < n {
            assert(spec_first_at(v@, 0) <= i) by {
                if spec_first_at(v@, 0) > i {
                    assert(v@[i as int] != '@');
                }
            }
        }
    }
    i
}

/// Decodes one entry, as [`spec_decode_entry`] describes.
pub fn decode_entry(e: &DictEntry) -> (r: Result<DictEntry, DictError>)
    ensures
        (r is Ok <==> spec_decode_entry(e@) is Ok),
        r matches Ok(d) ==> spec_decode_entry(e@) == Ok::<EntryModel, DictError>(d@),
        r matches Err(err) ==> spec_decode_entry(e@) == Err::<EntryModel, DictError>(err),
{
    proof {
        reveal(spec_decode_entry);
    }
    match &e.body {
        EntryBody::Text(t) => {
            if e.code == LANG_STRING_CODE {
                let p = find_at_sign(t);
                proof {
                    lemma_first_at(t@, 0);
                }
                if p >= t.len() {
                    return Err(DictError::LangStringWithoutTag);
                }
                let suffix = copy_chars_range(t, p + 1, t.len());
                proof {
                    assert(suffix@ =~= t@.skip(p + 1));
                }
                match decode_literal_chars(&suffix) {
                    Err(e2) => Err(DictError::Escape(e2)),
                    Ok(d) => {
                        let mut merged = copy_chars_range(t, 0, p + 1);
                        let mut decoded = d;
                        merged.append(&mut decoded);
                        proof {
                            assert(t@.subrange(0, p + 1) =~= t@.take(p + 1));
                        }
                        Ok(DictEntry { code: LANG_STRING_CODE, body: EntryBody::Text(merged) })
                    },
                }
            } else {
                match decode_literal_chars(t) {
                    Err(e2) => Err(DictError::Escape(e2)),
                    Ok(d) => Ok(DictEntry { code: STRING_CODE, body: EntryBody::Text(d) }),
                }
            }
        },
        EntryBody::Raw(b) => {
            let copy = copy_bytes(b);
            let r = DictEntry { code: e.code, body: EntryBody::Raw(copy) };
            proof {
                assert(r@ == e@);
            }
            Ok(r)
        },
    }
}

/// Order on tagged entries: by key, with the tag (the old position) breaking
/// ties, as a stable rebuild of the order demands.
pub open spec fn spec_pair_lt(p: (DictEntry, u64), q: (DictEntry, u64)) -> bool {
    ||| spec_key_cmp(spec_entry_key(p.0@), spec_entry_key(q.0@)) == KeyOrder::Before
    ||| (spec_key_cmp(spec_entry_key(p.0@), spec_entry_key(q.0@)) == KeyOrder::Same && p.1 < q.1)
}

pub proof fn lemma_pair_lt_trans(p: (DictEntry, u64), q: (DictEntry, u64), r: (DictEntry, u64))
    requires
        spec_pair_lt(p, q),
        spec_pair_lt(q, r),
    ensures
        spec_pair_lt(p, r),
{
    let kp = spec_entry_key(p.0@);
    let kq = spec_entry_key(q.0@);
    let kr = spec_entry_key(r.0@);
    lemma_key_cmp_from(kp, kq, 0);
    lemma_key_cmp_from(kq, kr, 0);
    lemma_key_cmp_from(kp, kr, 0);
    if spec_key_cmp(kp, kq) == KeyOrder::Before && spec_key_cmp(kq, kr) == KeyOrder::Before {
        lemma_key_cmp_trans(kp, kq, kr, 0);
    }
}

pub proof fn lemma_pair_lt_irrefl(p: (DictEntry, u64))
    ensures
        !spec_pair_lt(p, p),
{
    lemma_key_cmp_from(spec_entry_key(p.0@), spec_entry_key(p.0@), 0);
}

/// Executable form of [`spec_pair_lt`].
fn pair_before(p: &(DictEntry, u64), q: &(DictEntry, u64)) -> (r: bool)
    ensures
        r == spec_pair_lt(*p, *q),
{
    match compare_entries(&p.0, &q.0) {
        KeyOrder::Before => true,
        KeyOrder::Same => p.1 < q.1,
        KeyOrder::After => false,
    }
}

/// Selection sort of tagged entries, smallest first; ties cannot arise, as
/// the tags are the distinct old positions.
fn sort_tagged(input: Vec<(DictEntry, u64)>) -> (r: Vec<(DictEntry, u64)>)
    ensures
        r@.len() == input@.len(),
        r@.to_multiset() == input@.to_multiset(),
        forall|a: int, b: int| 0 <= a < b < r@.len() ==> !spec_pair_lt(r@[b], r@[a]),
{
    broadcast use vstd::seq_lib::group_to_multiset_ensures;
    broadcast use vstd::multiset::group_multiset_axioms;

    let mut rest = input;
    let mut out: Vec<(DictEntry, u64)> = Vec::new();
    let ghost total = input@.to_multiset();
    while rest.len() > 0
        invariant
            out@.to_multiset().add(rest@.to_multiset()) == total,
            total == input@.to_multiset(),
            out@.len() + rest@.len() == input@.len(),
            forall|a: int, b: int| 0 <= a < b < out@.len() ==> !spec_pair_lt(out@[b], out@[a]),
            forall|a: int, b: int|
                0 <= a < out@.len() && 0 <= b < rest@.len() ==> !spec_pair_lt(
                    rest@[b],
                    out@[a],
                ),
        decreases rest@.len(),
    {
        let m = rest.len();
        let mut min: usize = 0;
        proof {
            lemma_pair_lt_irrefl(rest@[0]);
        }
        let mut k: usize = 1;
        while k < m
            invariant
                min < k <= m || (k <= m && min == 0),
                min < m,
                m == rest@.len(),
                forall|k2: int| 0 <= k2 < k ==> !spec_pair_lt(rest@[k2], rest@[min as int]),
            decreases m - k,
        {
            proof {
                lemma_pair_lt_irrefl(rest@[k as int]);
            }
            if pair_before(&rest[k], &rest[min]) {
                proof {
                    assert forall|k2: int| 0 <= k2 < k implies !spec_pair_lt(
                        rest@[k2],
                        rest@[k as int],
                    ) by {
                        if spec_pair_lt(rest@[k2], rest@[k as int]) {
                            lemma_pair_lt_trans(rest@[k2], rest@[k as int], rest@[min as int]);
                        }
                    }
                }
                min = k;
            }
            k += 1;
        }
        proof {
            lemma_pair_lt_irrefl(rest@[min as int]);
        }
        let ghost rest_before = rest@;
        let ghost out_before = out@;
        let x = rest.remove(min);
        out.push(x);
        proof {
            broadcast use vstd::seq_lib::group_to_multiset_ensures;
            broadcast use vstd::multiset::group_multiset_axioms;

            assert(rest_before.remove(min as int).to_multiset() == rest_before.to_multiset().remove(
                x,
            ));
            assert(rest_before.to_multiset().contains(x)) by {
                assert(rest_before[min as int] == x);
                assert(rest_before.contains(x));
            }
            assert(out@.to_multiset() == out_before.to_multiset().insert(x));
            assert(out@.to_multiset().add(rest@.to_multiset()) =~= total);
            assert forall|a: int, b: int|
                0 <= a < out@.len() && 0 <= b < rest@.len() implies !spec_pair_lt(
                rest@[b],
                out@[a],
            ) by {
                if b < min {
                    assert(rest@[b] == rest_before[b]);
                } else {
                    assert(rest@[b] == rest_before[b + 1]);
                }
                if a < out_before.len() {
                    assert(out@[a] == out_before[a]);
                } else {
                    assert(out@[a] == x);
                }
            }
        }
    }
    out
}

/// Key of the decoded form of the `k`-th entry.  Only meaningful when that
/// entry decodes.
pub open spec fn spec_decoded_key(models: Seq<EntryModel>, k: int) -> Seq<u64> {
    spec_entry_key(spec_decode_entry(models[k])->Ok_0)
}

/// The first thing that stops a transcode, scanning from entry `i` on: an
/// entry whose payload does not decode, or one whose decoded form equals its
/// decoded predecessor.
pub open spec fn spec_transcode_problem(models: Seq<EntryModel>, i: int) -> Option<DictError>
    decreases models.len() - i,
{
    if i < 0 || i >= models.len() {
        None
    } else {
        match spec_decode_entry(models[i]) {
            Err(e) => Some(e),
            Ok(d) => {
                if i > 0 && spec_entry_key(d) == spec_decoded_key(models, i - 1) {
                    Some(DictError::DuplicateAfterDecode)
                } else {
                    spec_transcode_problem(models, i + 1)
                }
            },
        }
    }
}

/// No two entries decode to the same key.  Only meaningful when every entry
/// decodes; sorting brings equal keys side by side, so a transcode refuses
/// any input that breaks this.
pub open spec fn spec_decoded_distinct(models: Seq<EntryModel>) -> bool {
    forall|i: int, j: int|
        #![trigger spec_decoded_key(models, i), spec_decoded_key(models, j)]
        0 <= i < j < models.len() ==> spec_decoded_key(models, i) != spec_decoded_key(models, j)
}

/// A chain of neighbouring `Before` comparisons orders any two positions.
proof fn lemma_cmp_chain(keys: Seq<Seq<u64>>, a: int, b: int)
    requires
        forall|k: int|
            0 < k < keys.len() ==> #[trigger] spec_key_cmp(keys[k - 1], keys[k])
                == KeyOrder::Before,
        0 <= a < b < keys.len(),
    ensures
        spec_key_cmp(keys[a], keys[b]) == KeyOrder::Before,
    decreases b - a,
{
    assert(spec_key_cmp(keys[b - 1], keys[b]) == KeyOrder::Before);
    if a + 1 < b {
        lemma_cmp_chain(keys, a, b - 1);
        lemma_key_cmp_trans(keys[a], keys[b - 1], keys[b], 0);
    }
}

/// Decoded entries whose neighbours ascend strictly are pairwise distinct.
proof fn lemma_distinct_from_ascending(models: Seq<EntryModel>)
    requires
        forall|k: int|
            0 < k < models.len() ==> spec_key_cmp(
                #[trigger] spec_decoded_key(models, k - 1),
                spec_decoded_key(models, k),
            ) == KeyOrder::Before,
    ensures
        spec_decoded_distinct(models),
{
    let keys = Seq::new(models.len(), |x: int| spec_decoded_key(models, x));
    assert forall|k: int| 0 < k < keys.len() implies #[trigger] spec_key_cmp(
        keys[k - 1],
        keys[k],
    ) == KeyOrder::Before by {
        assert(keys[k - 1] == spec_decoded_key(models, k - 1));
        assert(keys[k] == spec_decoded_key(models, k));
    }
    assert forall|i: int, j: int|
        #![trigger spec_decoded_key(models, i), spec_decoded_key(models, j)]
        0 <= i < j < models.len() implies spec_decoded_key(models, i) != spec_decoded_key(
        models,
        j,
    ) by {
        lemma_cmp_chain(keys, i, j);
        lemma_key_cmp_from(keys[i], keys[j], 0);
    }
}

/// When the sorted tagged run ascends strictly, the decoded entries are
/// pairwise distinct: each stands at its own position of the run.
proof fn lemma_distinct_from_sorted(
    models: Seq<EntryModel>,
    tg: Seq<(DictEntry, u64)>,
    sv: Seq<(DictEntry, u64)>,
)
    requires
        models.len() <= u64::MAX,
        tg.len() == models.len(),
        sv.len() == models.len(),
        forall|k: int| 0 <= k < tg.len() ==> (#[trigger] tg[k]).1 == k as u64,
        forall|k: int|
            0 <= k < tg.len() ==> (#[trigger] tg[k]).0@ == spec_decode_entry(models[k])->Ok_0,
        forall|k: int|
            0 <= k < models.len() ==> exists|j: int| 0 <= j < sv.len() && sv[j] == #[trigger] tg[k],
        forall|a: int, b: int|
            0 <= a < sv.len() && 0 <= b < sv.len() && a != b ==> (#[trigger] sv[a]).1 != (
            #[trigger] sv[b]).1,
        forall|k: int|
            0 < k < sv.len() ==> #[trigger] spec_key_cmp(
                spec_entry_key(sv[k - 1].0@),
                spec_entry_key(sv[k].0@),
            ) == KeyOrder::Before,
    ensures
        spec_decoded_distinct(models),
{
    let keys = Seq::new(sv.len(), |x: int| spec_entry_key(sv[x].0@));
    assert forall|k: int| 0 < k < keys.len() implies #[trigger] spec_key_cmp(
        keys[k - 1],
        keys[k],
    ) == KeyOrder::Before by {
        assert(keys[k - 1] == spec_entry_key(sv[k - 1].0@));
        assert(keys[k] == spec_entry_key(sv[k].0@));
    }
    assert forall|i: int, j: int|
        #![trigger spec_decoded_key(models, i), spec_decoded_key(models, j)]
        0 <= i < j < models.len() implies spec_decoded_key(models, i) != spec_decoded_key(
        models,
        j,
    ) by {
        let pi = choose|p: int| 0 <= p < sv.len() && sv[p] == tg[i];
        let pj = choose|p: int| 0 <= p < sv.len() && sv[p] == tg[j];
        assert(sv[pi].1 == i as u64 && sv[pj].1 == j as u64);
        assert(pi != pj);
        assert(keys[pi] == spec_decoded_key(models, i));
        assert(keys[pj] == spec_decoded_key(models, j));
        if pi < pj {
            lemma_cmp_chain(keys, pi, pj);
            lemma_key_cmp_from(keys[pi], keys[pj], 0);
        } else {
            lemma_cmp_chain(keys, pj, pi);
            lemma_key_cmp_from(keys[pj], keys[pi], 0);
        }
    }
}

/// Finds the element carrying tag `t`.
fn find_tag(sorted: &Vec<(DictEntry, u64)>, t: u64) -> (r: usize)
    requires
        exists|j: int| 0 <= j < sorted@.len() && sorted@[j].1 == t,
    ensures
        r < sorted@.len(),
        sorted@[r as int].1 == t,
{
    let n = sorted.len();
    let mut j: usize = 0;
    while sorted[j].1 != t
        invariant
            j < n,
            n == sorted@.len(),
            exists|j2: int| j <= j2 < n && sorted@[j2].1 == t,
        decreases n - j,
    {
        j += 1;
        proof {
            let j2 = choose|j2: int| j - 1 <= j2 < n && sorted@[j2].1 == t;
            assert(j <= j2 < n);
        }
    }
    j
}

/// Strips the tags off a run of tagged entries, keeping the order.
fn untag(v: Vec<(DictEntry, u64)>) -> (r: Vec<DictEntry>)
    ensures
        r@.len() == v@.len(),
        forall|k: int| 0 <= k < v@.len() ==> r@[k] == (#[trigger] v@[k]).0,
{
    let ghost sv = v@;
    let n = v.len();
    let mut v = v;
    let mut r: Vec<DictEntry> = Vec::new();
    let mut j: usize = 0;
    while v.len() > 0
        invariant
            j == r@.len(),
            j + v@.len() == sv.len(),
            sv.len() <= usize::MAX,
            v@ =~= sv.skip(j as int),
            forall|k: int| 0 <= k < j ==> r@[k] == (#[trigger] sv[k]).0,
        decreases v@.len(),
    {
        let p = v.remove(0);
        proof {
            assert(p == sv.skip(j as int)[0]);
            assert(sv.skip(j as int)[0] == sv[j as int]);
            assert(sv.skip(j as int).drop_first() =~= sv.skip(j + 1));
        }
        r.push(p.0);
        j += 1;
    }
    r
}

/// Some element of `sv` carries tag `k`.
pub open spec fn spec_tag_present(sv: Seq<(DictEntry, u64)>, k: int) -> bool {
    exists|j: int| 0 <= j < sv.len() && (#[trigger] sv[j]).1 == k as u64
}

/// Builds the remap fragment for a sorted run of tagged entries: old ordinal
/// `offset + k` maps to `offset +` the position of the element tagged `k`.
fn build_fragment(sorted: &Vec<(DictEntry, u64)>, offset: u64) -> (r: IdMap)
    requires
        offset + sorted@.len() <= u64::MAX,
        forall|a: int, b: int|
            0 <= a < sorted@.len() && 0 <= b < sorted@.len() && a != b ==> (
            #[trigger] sorted@[a]).1 != (#[trigger] sorted@[b]).1,
        forall|k: int| 0 <= k < sorted@.len() ==> #[trigger] spec_tag_present(sorted@, k),
    ensures
        r.wf(),
        r.pairs@.len() == sorted@.len(),
        forall|k: int| 0 <= k < sorted@.len() ==> (#[trigger] r.pairs@[k]).0 == offset + k,
        forall|k: int|
            0 <= k < sorted@.len() ==> offset <= (#[trigger] r.pairs@[k]).1 < offset
                + sorted@.len(),
        forall|k: int|
            0 <= k < sorted@.len() ==> sorted@[(#[trigger] r.pairs@[k]).1 - offset].1 == k as u64,
{
    let ghost sv = sorted@;
    let n = sorted.len();
    let mut pairs: Vec<(u64, u64)> = Vec::new();
    let mut i: usize = 0;
    while i < n
        invariant
            i <= n,
            n == sv.len(),
            sv == sorted@,
            offset + n <= u64::MAX,
            forall|k: int| 0 <= k < n ==> #[trigger] spec_tag_present(sv, k),
            pairs@.len() == i,
            forall|k: int| 0 <= k < i ==> (#[trigger] pairs@[k]).0 == offset + k,
            forall|k: int| 0 <= k < i ==> offset <= (#[trigger] pairs@[k]).1 < offset + n,
            forall|k: int| 0 <= k < i ==> sv[(#[trigger] pairs@[k]).1 - offset].1 == k as u64,
        decreases n - i,
    {
        proof {
            assert(spec_tag_present(sv, i as int));
        }
        let j = find_tag(sorted, i as u64);
        pairs.push((offset + i as u64, offset + j as u64));
        i += 1;
    }
    let frag = IdMap { pairs };
    frag
}

/// Joins the facts about a sorted tagged run, its fragment, and the untagged
/// entry run into the transcoder's promises.
proof fn lemma_transcode_assemble(
    models: Seq<EntryModel>,
    tg: Seq<(DictEntry, u64)>,
    sv: Seq<(DictEntry, u64)>,
    fp: Seq<(u64, u64)>,
    newv: Seq<DictEntry>,
    offset: u64,
)
    requires
        tg.len() == models.len(),
        sv.len() == models.len(),
        newv.len() == models.len(),
        fp.len() == models.len(),
        offset + models.len() <= u64::MAX,
        forall|k: int| 0 <= k < tg.len() ==> (#[trigger] tg[k]).1 == k as u64,
        forall|k: int|
            0 <= k < tg.len() ==> (#[trigger] tg[k]).0@ == spec_decode_entry(models[k])->Ok_0,
        forall|k: int| 0 <= k < models.len() ==> exists|j: int| 0 <= j < sv.len() && sv[j] == #[trigger] tg[k],
        forall|a: int, b: int|
            0 <= a < sv.len() && 0 <= b < sv.len() && a != b ==> (#[trigger] sv[a]).1 != (
            #[trigger] sv[b]).1,
        forall|k: int| 0 <= k < newv.len() ==> newv[k] == (#[trigger] sv[k]).0,
        forall|k: int| 0 <= k < fp.len() ==> (#[trigger] fp[k]).0 == offset + k,
        forall|k: int| 0 <= k < fp.len() ==> offset <= (#[trigger] fp[k]).1 < offset + fp.len(),
        forall|k: int| 0 <= k < fp.len() ==> sv[(#[trigger] fp[k]).1 - offset].1 == k as u64,
    ensures
        forall|i: int|
            0 <= i < models.len() ==> offset <= #[trigger] spec_apply(fp, (offset + i) as u64)
                < offset + models.len(),
        forall|i: int|
            #![trigger spec_apply(fp, (offset + i) as u64)]
            0 <= i < models.len() ==> newv[spec_apply(fp, (offset + i) as u64) - offset]@
                == spec_decode_entry(models[i])->Ok_0,
        forall|i: int, j: int|
            #![trigger spec_apply(fp, (offset + i) as u64), spec_apply(fp, (offset + j) as u64)]
            0 <= i < models.len() && 0 <= j < models.len() && i != j ==> spec_apply(
                fp,
                (offset + i) as u64,
            ) != spec_apply(fp, (offset + j) as u64),
{
    let n = models.len() as int;
    assert forall|i: int| 0 <= i < n implies offset <= #[trigger] spec_apply(
        fp,
        (offset + i) as u64,
    ) < offset + n && newv[spec_apply(fp, (offset + i) as u64) - offset]@ == spec_decode_entry(
        models[i],
    )->Ok_0 by {
        lemma_lookup_at_index(fp, i);
        assert(fp[i].0 == (offset + i) as u64);
        assert(spec_apply(fp, (offset + i) as u64) == fp[i].1);
        let jj = fp[i].1 - offset;
        assert(sv[jj].1 == i as u64);
        let j0 = choose|j4: int| 0 <= j4 < sv.len() && sv[j4] == tg[i];
        assert(sv[j0].1 == i as u64);
        assert(j0 == jj);
        assert(newv[jj] == sv[jj].0);
        assert(sv[jj].0@ == spec_decode_entry(models[i])->Ok_0);
    }
    assert forall|i: int, j: int|
        #![trigger spec_apply(fp, (offset + i) as u64), spec_apply(fp, (offset + j) as u64)]
        0 <= i < n && 0 <= j < n && i != j implies spec_apply(fp, (offset + i) as u64)
        != spec_apply(fp, (offset + j) as u64) by {
        lemma_lookup_at_index(fp, i);
        lemma_lookup_at_index(fp, j);
        if spec_apply(fp, (offset + i) as u64) == spec_apply(fp, (offset + j) as u64) {
            assert(sv[fp[i].1 - offset].1 == i as u64);
            assert(sv[fp[j].1 - offset].1 == j as u64);
        }
    }
}

/// Transcodes one layer's slice of the value dictionary.
///
/// `entries` are the layer's entries in stored order; their old ordinals are
/// `offset`, `offset + 1`, … in that order.  On success the result holds the
/// rewritten entries in their new order, the layer's remap fragment (empty
/// when decoding kept every rank), and the offset for a child layer.
///
/// The fragment's keys all lie in the layer's own ordinal range, every old
/// ordinal's image falls back into that range, no two ordinals share an
/// image, the entry stored at an image's position is exactly the decoded
/// form of the old ordinal's entry, and the rewritten entries ascend
/// strictly.  Transcoding fails on the first entry that does not decode, or
/// whose decoded form collides with its decoded neighbour, as
/// [`spec_transcode_problem`] lays down; a collision between entries that
/// become neighbours only through the rebuild is caught there and fails the
/// same way, so success means every decoded entry is distinct
/// ([`spec_decoded_distinct`]).
#[verifier::rlimit(100)]
pub fn convert_value_dict(entries: &Vec<DictEntry>, offset: u64) -> (r: Result<
    (Vec<DictEntry>, IdMap, u64),
    DictError,
>)
    requires
        offset + entries@.len() <= u64::MAX,
    ensures
        (r is Ok <==> spec_transcode_problem(spec_models(entries@), 0) is None
            && spec_decoded_distinct(spec_models(entries@))),
        r matches Err(e) ==> e == (match spec_transcode_problem(spec_models(entries@), 0) {
            Some(p) => p,
            None => DictError::DuplicateAfterDecode,
        }),
        r matches Ok(out) ==> ({
            let models = spec_models(entries@);
            let n = entries@.len() as int;
            &&& out.2 == offset + n
            &&& out.0@.len() == n
            &&& out.1.wf()
            &&& forall|p: int|
                0 <= p < out.1.pairs@.len() ==> offset <= (#[trigger] out.1.pairs@[p]).0 < offset
                    + n
            &&& forall|i: int|
                0 <= i < n ==> offset <= #[trigger] spec_apply(
                    out.1.pairs@,
                    (offset + i) as u64,
                ) < offset + n
            &&& forall|i: int|
                #![trigger spec_apply(out.1.pairs@, (offset + i) as u64)]
                0 <= i < n ==> out.0@[spec_apply(out.1.pairs@, (offset + i) as u64) - offset]@
                    == spec_decode_entry(models[i])->Ok_0
            &&& forall|i: int, j: int|
                #![trigger spec_apply(out.1.pairs@, (offset + i) as u64), spec_apply(out.1.pairs@, (offset + j) as u64)]
                0 <= i < n && 0 <= j < n && i != j ==> spec_apply(
                    out.1.pairs@,
                    (offset + i) as u64,
                ) != spec_apply(out.1.pairs@, (offset + j) as u64)
            &&& forall|j: int|
                0 < j < n ==> spec_key_cmp(
                    spec_entry_key(#[trigger] out.0@[j - 1]@),
                    spec_entry_key(out.0@[j]@),
                ) == KeyOrder::Before
            &&& ((forall|k: int|
                0 < k < n ==> spec_key_cmp(
                    #[trigger] spec_decoded_key(models, k - 1),
                    spec_decoded_key(models, k),
                ) == KeyOrder::Before) ==> out.1.pairs@.len() == 0)
        }),
{
    let ghost models = spec_models(entries@);
    let n = entries.len();
    let mut tagged: Vec<(DictEntry, u64)> = Vec::new();
    let mut reorder = false;
    let ghost mut wit: int = 0;
    let mut i: usize = 0;
    while i < n
        invariant
            i <= n,
            n == entries@.len(),
            models == spec_models(entries@),
            offset + n <= u64::MAX,
            tagged@.len() == i,
            forall|k: int| 0 <= k < i ==> (#[trigger] tagged@[k]).1 == k as u64,
            forall|k: int| 0 <= k < i ==> spec_decode_entry(models[k]) is Ok,
            forall|k: int|
                0 <= k < i ==> (#[trigger] tagged@[k]).0@ == spec_decode_entry(models[k])->Ok_0,
            spec_transcode_problem(models, 0) == spec_transcode_problem(models, i as int),
            reorder ==> 0 < wit < i && spec_key_cmp(
                spec_entry_key(tagged@[wit - 1].0@),
                spec_entry_key(tagged@[wit].0@),
            ) == KeyOrder::After,
            !reorder ==> forall|k: int|
                0 < k < i ==> #[trigger] spec_key_cmp(
                    spec_entry_key(tagged@[k - 1].0@),
                    spec_entry_key(tagged@[k].0@),
                ) == KeyOrder::Before,
        decreases n - i,
    {
        proof {
            assert(entries@[i as int]@ == models[i as int]);
        }
        let ghost tagged_before = tagged@;
        match decode_entry(&entries[i]) {
            Err(err) => {
                proof {
                    assert(spec_transcode_problem(models, i as int) == Some(err));
                }
                return Err(err);
            },
            Ok(d) => {
                let ghost dk = spec_entry_key(d@);
                let mut saw_after = false;
                if i > 0 {
                    let ord = compare_entries(&tagged[i - 1].0, &d);
                    proof {
                        lemma_key_cmp_from(spec_entry_key(tagged@[i - 1].0@), dk, 0);
                    }
                    match ord {
                        KeyOrder::Same => {
                            proof {
                                assert(spec_entry_key(d@) == spec_decoded_key(models, i - 1));
                                assert(spec_transcode_problem(models, i as int) == Some(
                                    DictError::DuplicateAfterDecode,
                                ));
                            }
                            return Err(DictError::DuplicateAfterDecode);
                        },
                        KeyOrder::After => {
                            saw_after = true;
                        },
                        KeyOrder::Before => {
                        },
                    }
                }
                if saw_after && !reorder {
                    reorder = true;
                    proof {
                        wit = i as int;
                    }
                }
                tagged.push((d, i as u64));
                proof {
                    assert(forall|k: int|
                        0 <= k < i ==> #[trigger] tagged@[k] == tagged_before[k]);
                    assert(tagged@[i as int].0@ == spec_decode_entry(models[i as int])->Ok_0);
                    if i > 0 {
                        assert(tagged@[i - 1].0@ == spec_decode_entry(models[i - 1])->Ok_0);
                        assert(dk != spec_decoded_key(models, i - 1));
                    }
                    assert(spec_transcode_problem(models, i as int) == spec_transcode_problem(
                        models,
                        i + 1,
                    ));
                }
            },
        }
        i += 1;
    }
    proof {
        assert(spec_transcode_problem(models, n as int) is None);
    }
    let new_offset = offset + n as u64;
    if !reorder {
        // ranks kept: the decoded entries stand in their old order and the
        // fragment is empty
        let ghost tg = tagged@;
        let new_entries = untag(tagged);
        let frag = IdMap::new();
        proof {
            assert(frag.pairs@.len() == 0);
            assert forall|i2: int| 0 <= i2 < n implies #[trigger] spec_apply(
                frag.pairs@,
                (offset + i2) as u64,
            ) == offset + i2 by {
                assert(spec_lookup(frag.pairs@, (offset + i2) as u64) is None);
            }
            assert forall|j2: int| 0 < j2 < n implies spec_key_cmp(
                spec_entry_key(#[trigger] new_entries@[j2 - 1]@),
                spec_entry_key(new_entries@[j2]@),
            ) == KeyOrder::Before by {
                assert(new_entries@[j2 - 1] == tg[j2 - 1].0);
                assert(new_entries@[j2] == tg[j2].0);
            }
            assert forall|k: int| 0 < k < n implies spec_key_cmp(
                #[trigger] spec_decoded_key(models, k - 1),
                spec_decoded_key(models, k),
            ) == KeyOrder::Before by {
                assert(tg[k - 1].0@ == spec_decode_entry(models[k - 1])->Ok_0);
                assert(tg[k].0@ == spec_decode_entry(models[k])->Ok_0);
                assert(spec_key_cmp(
                    spec_entry_key(tg[k - 1].0@),
                    spec_entry_key(tg[k].0@),
                ) == KeyOrder::Before);
            }
            lemma_distinct_from_ascending(models);
            assert forall|i2: int|
                #![trigger spec_apply(frag.pairs@, (offset + i2) as u64)]
                0 <= i2 < n implies new_entries@[spec_apply(frag.pairs@, (offset + i2) as u64)
                - offset]@ == spec_decode_entry(models[i2])->Ok_0 by {
                assert(spec_apply(frag.pairs@, (offset + i2) as u64) == offset + i2);
                assert(new_entries@[i2] == tg[i2].0);
                assert(tg[i2].0@ == spec_decode_entry(models[i2])->Ok_0);
            }
        }
        Ok((new_entries, frag, new_offset))
    } else {
        // decoding moved at least one entry: rebuild the order and record the
        // fragment
        let ghost tg = tagged@;
        proof {
            assert(tg.no_duplicates()) by {
                assert(forall|a: int, b: int|
                    0 <= a < tg.len() && 0 <= b < tg.len() && a != b ==> (#[trigger] tg[a]).1
                        != (#[trigger] tg[b]).1);
            }
            tg.lemma_multiset_has_no_duplicates();
        }
        let sorted = sort_tagged(tagged);
        let ghost sv = sorted@;
        proof {
            broadcast use vstd::seq_lib::group_to_multiset_ensures;

            assert forall|x: (DictEntry, u64)| sv.to_multiset().contains(x) implies sv.to_multiset(
            ).count(x) == 1 by {
                assert(tg.to_multiset().count(x) > 0);
                assert(tg.to_multiset().count(x) == 1);
            }
            sv.lemma_multiset_has_no_duplicates_conv();
            // every tagged pair reappears in the sorted run
            assert forall|k: int| 0 <= k < n implies exists|j: int|
                0 <= j < sv.len() && sv[j] == #[trigger] tg[k] by {
                assert(tg.contains(tg[k]));
                assert(tg.to_multiset().count(tg[k]) > 0);
                assert(sv.to_multiset().count(tg[k]) > 0);
                assert(sv.contains(tg[k]));
            }
            // tags stay pairwise distinct
            assert forall|a: int, b: int|
                0 <= a < sv.len() && 0 <= b < sv.len() && a != b implies (#[trigger] sv[a]).1
                != (#[trigger] sv[b]).1 by {
                if sv[a].1 == sv[b].1 {
                    assert(sv.contains(sv[a]));
                    assert(sv.to_multiset().count(sv[a]) > 0);
                    assert(tg.to_multiset().count(sv[a]) > 0);
                    assert(tg.contains(sv[a]));
                    let ka = choose|k: int| 0 <= k < tg.len() && tg[k] == sv[a];
                    assert(sv.contains(sv[b]));
                    assert(sv.to_multiset().count(sv[b]) > 0);
                    assert(tg.to_multiset().count(sv[b]) > 0);
                    assert(tg.contains(sv[b]));
                    let kb = choose|k: int| 0 <= k < tg.len() && tg[k] == sv[b];
                    assert(tg[ka].1 == ka as u64 && tg[kb].1 == kb as u64);
                    assert(ka == kb);
                    assert(sv[a] == sv[b]);
                }
            }
            // hence every tag below the count occurs somewhere
            assert forall|k: int| 0 <= k < n implies #[trigger] spec_tag_present(sv, k) by {
                let j0 = choose|j: int| 0 <= j < sv.len() && sv[j] == tg[k];
                assert(sv[j0].1 == k as u64);
            }
        }
        proof {
            broadcast use vstd::seq_lib::group_to_multiset_ensures;

            // every element of the sorted run is a decoded entry, found under
            // its old position's tag
            assert forall|x: int| 0 <= x < sv.len() implies (#[trigger] sv[x]).1 < n && sv[x].0@
                == spec_decode_entry(models[sv[x].1 as int])->Ok_0 by {
                assert(sv.contains(sv[x]));
                assert(sv.to_multiset().count(sv[x]) > 0);
                assert(tg.to_multiset().count(sv[x]) > 0);
                assert(tg.contains(sv[x]));
                let a = choose|a: int| 0 <= a < tg.len() && tg[a] == sv[x];
                assert(tg[a].1 == a as u64);
            }
        }
        // decoding may have collapsed two entries that stood nowhere near
        // each other in the old order; after sorting such a pair is side by
        // side, so one scan finds it
        let m = sorted.len();
        let mut j: usize = 1;
        while j < m
            invariant
                1 <= j,
                j <= m || m == 0,
                m == sv.len(),
                sv == sorted@,
                n == entries@.len(),
                sv.len() == n,
                models == spec_models(entries@),
                spec_transcode_problem(models, 0) is None,
                forall|x: int| 0 <= x < sv.len() ==> (#[trigger] sv[x]).1 < n,
                forall|x: int|
                    0 <= x < sv.len() ==> (#[trigger] sv[x]).0@ == spec_decode_entry(
                        models[sv[x].1 as int],
                    )->Ok_0,
                forall|a: int, b: int|
                    0 <= a < sv.len() && 0 <= b < sv.len() && a != b ==> (#[trigger] sv[a]).1 != (
                    #[trigger] sv[b]).1,
                forall|k: int|
                    0 < k < j ==> #[trigger] spec_key_cmp(
                        spec_entry_key(sv[k - 1].0@),
                        spec_entry_key(sv[k].0@),
                    ) != KeyOrder::Same,
            decreases m - j,
        {
            match compare_entries(&sorted[j - 1].0, &sorted[j].0) {
                KeyOrder::Same => {
                    proof {
                        let jj = j as int;
                        lemma_key_cmp_from(
                            spec_entry_key(sv[jj - 1].0@),
                            spec_entry_key(sv[jj].0@),
                            0,
                        );
                        let t1 = sv[jj - 1].1 as int;
                        let t2 = sv[jj].1 as int;
                        assert(t1 != t2);
                        assert(spec_decoded_key(models, t1) == spec_entry_key(sv[jj - 1].0@));
                        assert(spec_decoded_key(models, t2) == spec_entry_key(sv[jj].0@));
                        assert(!spec_decoded_distinct(models)) by {
                            if t1 < t2 {
                                assert(spec_decoded_key(models, t1) == spec_decoded_key(
                                    models,
                                    t2,
                                ));
                            } else {
                                assert(spec_decoded_key(models, t2) == spec_decoded_key(
                                    models,
                                    t1,
                                ));
                            }
                        }
                    }
                    return Err(DictError::DuplicateAfterDecode);
                },
                _ => {
                },
            }
            j += 1;
        }
        proof {
            // the run ascends strictly: sorting ruled out descents, the scan
            // above ruled out equals
            assert forall|k: int| 0 < k < sv.len() implies #[trigger] spec_key_cmp(
                spec_entry_key(sv[k - 1].0@),
                spec_entry_key(sv[k].0@),
            ) == KeyOrder::Before by {
                assert(!spec_pair_lt(sv[k], sv[k - 1]));
                lemma_key_cmp_from(spec_entry_key(sv[k - 1].0@), spec_entry_key(sv[k].0@), 0);
                lemma_key_cmp_from(spec_entry_key(sv[k].0@), spec_entry_key(sv[k - 1].0@), 0);
            }
            lemma_distinct_from_sorted(models, tg, sv);
        }
        let frag = build_fragment(&sorted, offset);
        let new_entries = untag(sorted);
        proof {
            lemma_transcode_assemble(models, tg, sv, frag.pairs@, new_entries@, offset);
            assert forall|j3: int| 0 < j3 < n implies spec_key_cmp(
                spec_entry_key(#[trigger] new_entries@[j3 - 1]@),
                spec_entry_key(new_entries@[j3]@),
            ) == KeyOrder::Before by {
                assert(new_entries@[j3 - 1] == sv[j3 - 1].0);
                assert(new_entries@[j3] == sv[j3].0);
            }
            // the rebuild only runs when some decoded rank actually fell, so
            // a fully ascending decode contradicts the recorded witness
            if forall|k: int|
                0 < k < n ==> spec_key_cmp(
                    #[trigger] spec_decoded_key(models, k - 1),
                    spec_decoded_key(models, k),
                ) == KeyOrder::Before {
                assert(spec_entry_key(tg[wit - 1].0@) == spec_decoded_key(models, wit - 1));
                assert(spec_entry_key(tg[wit].0@) == spec_decoded_key(models, wit));
                assert(spec_key_cmp(
                    spec_decoded_key(models, wit - 1),
                    spec_decoded_key(models, wit),
                ) == KeyOrder::Before);
                assert(false);
            }
        }
        Ok((new_entries, frag, new_offset))
    }
}

} // verus!
