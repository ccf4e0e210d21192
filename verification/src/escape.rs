//! Decoder for backslash escape sequences in string literals of the source
//! ecosystem's host language.
//!
//! A literal is a sequence of Unicode characters.  A backslash introduces
//! either a one-character escape (see [`spec_escape_char`]) or the legacy hex
//! escape `\x…\`, whose hexadecimal digits name a Unicode scalar value.
//! Decoding fails on an unknown escape trigger and on a malformed hex escape;
//! it never drops or substitutes characters silently.

use vstd::prelude::*;

verus! {

/// Why decoding an escaped literal failed.
#[derive(Clone, Copy, Debug, PartialEq, Eq, Structural)]
pub enum DecodeError {
    /// A backslash was followed by a character outside the escape table,
    /// or stood last in the input.
    UnknownEscape,
    /// A hex escape had no digits, a non-hex character before its closing
    /// backslash, no closing backslash at all, or a value that is not a
    /// Unicode scalar value.
    MalformedHex,
}

/// The one-character escape table: what `\` followed by `c` decodes to.
pub open spec fn spec_escape_char(c: char) -> Option<char> {
    match c {
        '\\' => Some('\\'),
        '"' => Some('"'),
        'a' => Some('\u{7}'),
        'b' => Some('\u{8}'),
        't' => Some('\t'),
        'n' => Some('\n'),
        'v' => Some('\u{B}'),
        'f' => Some('\u{C}'),
        'r' => Some('\r'),
        _ => None,
    }
}

/// Value of a hexadecimal digit, or `None` for any other character.
pub open spec fn spec_hex_digit(c: char) -> Option<u32> {
    let v = c as u32;
    if 48 <= v && v <= 57 {
        Some((v - 48) as u32)
    } else if 97 <= v && v <= 102 {
        Some((v - 87) as u32)
    } else if 65 <= v && v <= 70 {
        Some((v - 55) as u32)
    } else {
        None
    }
}

/// All characters of `digits` are hexadecimal digits.
pub open spec fn spec_all_hex(digits: Seq<char>) -> bool {
    forall|k: int| 0 <= k < digits.len() ==> #[trigger] spec_hex_digit(digits[k]) is Some
}

/// The number written by a sequence of hexadecimal digits, most significant
/// digit first.  Only meaningful when `spec_all_hex(digits)` holds.
pub open spec fn spec_hex_value(digits: Seq<char>) -> nat
    decreases digits.len(),
{
    if digits.len() == 0 {
        0
    } else {
        match spec_hex_digit(digits.last()) {
            Some(d) => (spec_hex_value(digits.drop_last()) * 16 + d) as nat,
            None => (spec_hex_value(digits.drop_last()) * 16) as nat,
        }
    }
}

/// `v` is a Unicode scalar value: a code point that is not a surrogate.
pub open spec fn spec_is_scalar(v: nat) -> bool {
    v <= 0xD7FF || (0xE000 <= v && v <= 0x10FFFF)
}

/// Index of the first backslash in `s` at or after `i`, or `s.len()` when
/// there is none.
pub open spec fn spec_backslash_end(s: Seq<char>, i: int) -> int
    decreases s.len() - i,
{
    if i < 0 || i >= s.len() {
        s.len() as int
    } else if s[i] == '\\' {
        i
    } else {
        spec_backslash_end(s, i + 1)
    }
}

pub proof fn lemma_backslash_end(s: Seq<char>, i: int)
    requires
        0 <= i <= s.len(),
    ensures
        i <= spec_backslash_end(s, i) <= s.len(),
        spec_backslash_end(s, i) < s.len() ==> s[spec_backslash_end(s, i)] == '\\',
        forall|k: int| i <= k < spec_backslash_end(s, i) ==> s[k] != '\\',
        forall|j: int| i <= j < s.len() && s[j] == '\\' ==> spec_backslash_end(s, i) <= j,
    decreases s.len() - i,
{
    if i < s.len() && s[i] != '\\' {
        lemma_backslash_end(s, i + 1);
    }
}

/// The decoded form of the suffix of `s` that starts at `i`, or the first
/// error met reading left to right.
pub open spec fn spec_decode_from(s: Seq<char>, i: int) -> Result<Seq<char>, DecodeError>
    decreases s.len() - i,
    via spec_decode_from_dec
{
    if i < 0 || i >= s.len() {
        Ok(Seq::empty())
    } else if s[i] != '\\' {
        match spec_decode_from(s, i + 1) {
            Ok(t) => Ok(seq![s[i]] + t),
            Err(e) => Err(e),
        }
    } else if i + 1 >= s.len() {
        Err(DecodeError::UnknownEscape)
    } else if s[i + 1] == 'x' {
        let j = spec_backslash_end(s, i + 2);
        if j >= s.len() {
            Err(DecodeError::MalformedHex)
        } else {
            let digits = s.subrange(i + 2, j);
            if digits.len() == 0 || !spec_all_hex(digits) || !spec_is_scalar(
                spec_hex_value(digits),
            ) {
                Err(DecodeError::MalformedHex)
            } else {
                match spec_decode_from(s, j + 1) {
                    Ok(t) => Ok(seq![spec_hex_value(digits) as char] + t),
                    Err(e) => Err(e),
                }
            }
        }
    } else {
        match spec_escape_char(s[i + 1]) {
            Some(c) => match spec_decode_from(s, i + 2) {
                Ok(t) => Ok(seq![c] + t),
                Err(e) => Err(e),
            },
            None => Err(DecodeError::UnknownEscape),
        }
    }
}

#[via_fn]
proof fn spec_decode_from_dec(s: Seq<char>, i: int) {
    if 0 <= i < s.len() && s[i] == '\\' && i + 1 < s.len() && s[i + 1] == 'x' {
        lemma_backslash_end(s, i + 2);
    }
}

/// The decoded form of the whole literal `s`, or the first error.
pub open spec fn spec_decode(s: Seq<char>) -> Result<Seq<char>, DecodeError> {
    spec_decode_from(s, 0)
}

/// Value of a hexadecimal digit character.
fn hex_digit_of(c: char) -> (r: Option<u32>)
    ensures
        r == spec_hex_digit(c),
{
    let v = c as u32;
    if 48 <= v && v <= 57 {
        Some(v - 48)
    } else if 97 <= v && v <= 102 {
        Some(v - 87)
    } else if 65 <= v && v <= 70 {
        Some(v - 55)
    } else {
        None
    }
}

/// The one-character escape table, executable form.
fn escape_char_of(c: char) -> (r: Option<char>)
    ensures
        r == spec_escape_char(c),
{
    match c {
        '\\' => Some('\\'),
        '"' => Some('"'),
        'a' => Some('\u{7}'),
        'b' => Some('\u{8}'),
        't' => Some('\t'),
        'n' => Some('\n'),
        'v' => Some('\u{B}'),
        'f' => Some('\u{C}'),
        'r' => Some('\r'),
        _ => None,
    }
}

/// Relies on `char::from_u32`: returns `Some` exactly on Unicode scalar
/// values, and then the character with that code point.
#[verifier::external_body]
fn char_from_u32(v: u32) -> (r: Option<char>)
    ensures
        r is Some <==> spec_is_scalar(v as nat),
        r is Some ==> r->0 == v as char,
{
    char::from_u32(v)
}

/// Reads the digits of a legacy hex escape out of `s`, starting at `start`
/// (the position just after `\x`), up to the terminating backslash, and
/// returns the escaped character together with the position just after that
/// terminator.  Fails with [`DecodeError::MalformedHex`] when no terminator
/// follows, when there are no digits, when a non-hex character stands before
/// the terminator, or when the digits name a value that is no Unicode scalar.
pub fn unescape_legacy_prolog_escape_sequence(s: &Vec<char>, start: usize) -> (r: Result<
    (char, usize),
    DecodeError,
>)
    requires
        start <= s@.len(),
    ensures
        ({
            let j = spec_backslash_end(s@, start as int);
            let digits = s@.subrange(start as int, j);
            &&& (r is Ok <==> (j < s@.len() && digits.len() > 0 && spec_all_hex(digits)
                && spec_is_scalar(spec_hex_value(digits))))
            &&& (r matches Ok(p) ==> p.0 == spec_hex_value(digits) as char && p.1 == j + 1)
            &&& (r matches Err(e) ==> e == DecodeError::MalformedHex)
        }),
{
    let n = s.len();
    let ghost end = spec_backslash_end(s@, start as int);
    proof {
        lemma_backslash_end(s@, start as int);
    }
    let mut j = start;
    let mut val: u64 = 0;
    let mut all_hex = true;
    let mut big = false;
    while j < n && s[j] != '\\'
        invariant
            start <= j <= n,
            n == s@.len(),
            end == spec_backslash_end(s@, start as int),
            start <= end <= n,
            end < n ==> s@[end] == '\\',
            forall|k: int| start <= k < end ==> s@[k] != '\\',
            forall|k: int| start <= k < j ==> s@[k] != '\\',
            j <= end,
            all_hex == spec_all_hex(s@.subrange(start as int, j as int)),
            all_hex && !big ==> val == spec_hex_value(s@.subrange(start as int, j as int))
                && val <= 0x10FFFF,
            all_hex && big ==> spec_hex_value(s@.subrange(start as int, j as int)) > 0x10FFFF,
        decreases n - j,
    {
        let ghost pre = s@.subrange(start as int, j as int);
        let ghost post = s@.subrange(start as int, j as int + 1);
        proof {
            assert(post.drop_last() =~= pre);
            assert(post.last() == s@[j as int]);
        }
        match hex_digit_of(s[j]) {
            None => {
                all_hex = false;
            },
            Some(d) => {
                if all_hex && !big {
                    let next = val * 16 + d as u64;
                    if next > 0x10FFFF {
                        big = true;
                    } else {
                        val = next;
                    }
                }
            },
        }
        j += 1;
        proof {
            if j <= end {
            } else {
                // s[j - 1] was not a backslash, so the end lies at or past j
                assert(j - 1 < end || j - 1 == end);
            }
        }
    }
    proof {
        if j < n {
            // loop stopped on a backslash at or before `end`, hence at `end`
            assert(j == end);
        } else {
            assert(j == n && end == n);
        }
    }
    if j >= n {
        return Err(DecodeError::MalformedHex);
    }
    let ghost digits = s@.subrange(start as int, end);
    if j == start || !all_hex || big {
        return Err(DecodeError::MalformedHex);
    }
    match char_from_u32(val as u32) {
        None => Err(DecodeError::MalformedHex),
        Some(c) => Ok((c, j + 1)),
    }
}

/// Decodes a whole literal given as a character sequence.
pub fn decode_literal_chars(s: &Vec<char>) -> (r: Result<Vec<char>, DecodeError>)
    ensures
        (r is Ok <==> spec_decode(s@) is Ok),
        r matches Ok(t) ==> spec_decode(s@) == Ok::<Seq<char>, DecodeError>(t@),
        r matches Err(e) ==> spec_decode(s@) == Err::<Seq<char>, DecodeError>(e),
{
    let n = s.len();
    let mut out: Vec<char> = Vec::new();
    let mut i: usize = 0;
    while i < n
        invariant
            i <= n,
            n == s@.len(),
            spec_decode_from(s@, i as int) matches Ok(t) ==> spec_decode(s@) == Ok::<
                Seq<char>,
                DecodeError,
            >(out@ + t),
            spec_decode_from(s@, i as int) matches Err(e) ==> spec_decode(s@) == Err::<
                Seq<char>,
                DecodeError,
            >(e),
        decreases n - i,
    {
        let ghost pre_out = out@;
        let ghost ii = i as int;
        let c = s[i];
        if c != '\\' {
            out.push(c);
            i += 1;
            proof {
                let dr = spec_decode_from(s@, ii + 1);
                if dr is Ok {
                    let t = dr->Ok_0;
                    assert(spec_decode_from(s@, ii) == Ok::<Seq<char>, DecodeError>(
                        seq![s@[ii]] + t,
                    ));
                    assert(pre_out + (seq![s@[ii]] + t) =~= out@ + t);
                }
            }
        } else if i + 1 >= n {
            return Err(DecodeError::UnknownEscape);
        } else if s[i + 1] == 'x' {
            proof {
                lemma_backslash_end(s@, ii + 2);
            }
            match unescape_legacy_prolog_escape_sequence(s, i + 2) {
                Err(e) => {
                    return Err(e);
                },
                Ok((c, next)) => {
                    out.push(c);
                    proof {
                        let j = spec_backslash_end(s@, ii + 2);
                        let dr = spec_decode_from(s@, j + 1);
                        if dr is Ok {
                            let t = dr->Ok_0;
                            assert(spec_decode_from(s@, ii) == Ok::<Seq<char>, DecodeError>(
                                seq![c] + t,
                            ));
                            assert(pre_out + (seq![c] + t) =~= out@ + t);
                        }
                    }
                    i = next;
                },
            }
        } else {
            match escape_char_of(s[i + 1]) {
                None => {
                    return Err(DecodeError::UnknownEscape);
                },
                Some(c) => {
                    out.push(c);
                    i += 2;
                    proof {
                        let dr = spec_decode_from(s@, ii + 2);
                        if dr is Ok {
                            let t = dr->Ok_0;
                            assert(spec_decode_from(s@, ii) == Ok::<Seq<char>, DecodeError>(
                                seq![c] + t,
                            ));
                            assert(pre_out + (seq![c] + t) =~= out@ + t);
                        }
                    }
                },
            }
        }
    }
    proof {
        assert(spec_decode_from(s@, n as int) == Ok::<Seq<char>, DecodeError>(Seq::empty()));
        assert(out@ + Seq::<char>::empty() =~= out@);
    }
    Ok(out)
}

/// Relies on `String`'s `FromIterator<char>`: collecting characters yields
/// the string with exactly those characters.
#[verifier::external_body]
fn chars_to_string(v: &Vec<char>) -> (r: String)
    ensures
        r@ == v@,
{
    v.iter().collect()
}

/// Collects the characters of a string slice.
fn str_to_chars(s: &str) -> (r: Vec<char>)
    ensures
        r@ == s@,
{
    let n = s.unicode_len();
    let mut r: Vec<char> = Vec::new();
    let mut i: usize = 0;
    while i < n
        invariant
            i <= n,
            n == s@.len(),
            r@ =~= s@.subrange(0, i as int),
        decreases n - i,
    {
        r.push(s.get_char(i));
        i += 1;
        proof {
            assert(r@ =~= s@.subrange(0, i as int));
        }
    }
    proof {
        assert(s@.subrange(0, n as int) =~= s@);
    }
    r
}

/// Decodes an escaped string literal into its plain Unicode form.
///
/// Input without a backslash is returned unchanged.  An unknown escape
/// trigger, or a backslash that ends the input, is an
/// [`DecodeError::UnknownEscape`]; a broken hex escape is a
/// [`DecodeError::MalformedHex`].
pub fn prolog_string_to_string(s: &str) -> (r: Result<String, DecodeError>)
    ensures
        (r is Ok <==> spec_decode(s@) is Ok),
        r matches Ok(t) ==> spec_decode(s@) == Ok::<Seq<char>, DecodeError>(t@),
        r matches Err(e) ==> spec_decode(s@) == Err::<Seq<char>, DecodeError>(e),
{
    let cs = str_to_chars(s);
    match decode_literal_chars(&cs) {
        Ok(t) => Ok(chars_to_string(&t)),
        Err(e) => Err(e),
    }
}

/// Decoder table coverage: a backslash followed by a character of the escape
/// table decodes to exactly the character the table names.
pub proof fn lemma_escape_table(c: char, e: char)
    requires
        spec_escape_char(c) == Some(e),
    ensures
        spec_decode(seq!['\\', c]) == Ok::<Seq<char>, DecodeError>(seq![e]),
{
    let s = seq!['\\', c];
    assert(spec_escape_char('x') is None);
    assert(s[1] != 'x');
    assert(spec_decode_from(s, 2) == Ok::<Seq<char>, DecodeError>(Seq::empty()));
    assert(seq![e] + Seq::<char>::empty() =~= seq![e]);
}

/// A literal without a backslash decodes to itself.
pub proof fn lemma_decode_escape_free(s: Seq<char>)
    requires
        forall|k: int| 0 <= k < s.len() ==> s[k] != '\\',
    ensures
        spec_decode(s) == Ok::<Seq<char>, DecodeError>(s),
{
    lemma_decode_escape_free_from(s, 0);
    assert(s.skip(0) =~= s);
}

proof fn lemma_decode_escape_free_from(s: Seq<char>, i: int)
    requires
        0 <= i <= s.len(),
        forall|k: int| 0 <= k < s.len() ==> s[k] != '\\',
    ensures
        spec_decode_from(s, i) == Ok::<Seq<char>, DecodeError>(s.skip(i)),
    decreases s.len() - i,
{
    if i >= s.len() {
        assert(s.skip(i) =~= Seq::<char>::empty());
    } else {
        lemma_decode_escape_free_from(s, i + 1);
        assert(s.skip(i) =~= seq![s[i]] + s.skip(i + 1));
    }
}

/// The lowercase hexadecimal digit character for a value below 16.
pub open spec fn spec_hex_char(d: nat) -> char {
    if d < 10 {
        ((d + 48) as u32) as char
    } else {
        ((d + 87) as u32) as char
    }
}

/// The shortest lowercase hexadecimal rendering of `v`.
pub open spec fn spec_hex_render(v: nat) -> Seq<char>
    decreases v,
{
    if v < 16 {
        seq![spec_hex_char(v)]
    } else {
        spec_hex_render(v / 16).push(spec_hex_char(v % 16))
    }
}

proof fn lemma_hex_char(d: nat)
    requires
        d < 16,
    ensures
        spec_hex_digit(spec_hex_char(d)) == Some(d as u32),
        spec_hex_char(d) != '\\',
{
}

proof fn lemma_hex_render(v: nat)
    ensures
        spec_hex_render(v).len() > 0,
        spec_all_hex(spec_hex_render(v)),
        forall|k: int|
            0 <= k < spec_hex_render(v).len() ==> #[trigger] spec_hex_render(v)[k] != '\\',
        spec_hex_value(spec_hex_render(v)) == v,
    decreases v,
{
    if v < 16 {
        lemma_hex_char(v);
        let r = spec_hex_render(v);
        assert(r.last() == spec_hex_char(v));
        assert(r.drop_last() =~= Seq::<char>::empty());
        assert(spec_hex_value(Seq::<char>::empty()) == 0);
        assert(spec_hex_value(r) == v);
    } else {
        lemma_hex_render(v / 16);
        lemma_hex_char(v % 16);
        let p = spec_hex_render(v / 16);
        let r = spec_hex_render(v);
        assert(r =~= p.push(spec_hex_char(v % 16)));
        assert(r.drop_last() =~= p);
        assert(r.last() == spec_hex_char(v % 16));
        assert(spec_hex_value(r) == spec_hex_value(p) * 16 + (v % 16));
        assert(v / 16 * 16 + v % 16 == v) by {
            vstd::arithmetic::div_mod::lemma_fundamental_div_mod(v as int, 16);
        }
        assert forall|k: int| 0 <= k < r.len() implies #[trigger] r[k] != '\\' by {
            if k < p.len() {
                assert(r[k] == p[k]);
            }
        }
        assert forall|k: int| 0 <= k < r.len() implies #[trigger] spec_hex_digit(r[k]) is Some by {
            if k < p.len() {
                assert(r[k] == p[k]);
                assert(spec_hex_digit(p[k]) is Some);
            }
        }
    }
}

/// Hex escape round trip: for a Unicode scalar at or above the space
/// character, writing its code point as a hex escape and decoding gives back
/// exactly that character.
pub proof fn lemma_hex_escape_round_trip(c: char)
    requires
        c as u32 >= 0x20,
    ensures
        spec_decode(seq!['\\', 'x'] + spec_hex_render(c as nat) + seq!['\\']) == Ok::<
            Seq<char>,
            DecodeError,
        >(seq![c]),
{
    let d = spec_hex_render(c as nat);
    lemma_hex_render(c as nat);
    let s = seq!['\\', 'x'] + d + seq!['\\'];
    let n = s.len() as int;
    assert(n == d.len() + 3);
    assert(s[0] == '\\');
    assert(s[1] == 'x');
    assert(s[n - 1] == '\\');
    assert(forall|k: int| 2 <= k < n - 1 ==> s[k] == d[k - 2]);
    lemma_backslash_end(s, 2);
    let j = spec_backslash_end(s, 2);
    assert(j <= n - 1);
    assert(j == n - 1) by {
        if j < n - 1 {
            assert(s[j] == d[j - 2]);
            assert(d[j - 2] != '\\');
        }
    }
    let digits = s.subrange(2, j);
    assert(digits =~= d);
    assert(spec_is_scalar(c as nat));
    assert(spec_decode_from(s, j + 1) == Ok::<Seq<char>, DecodeError>(Seq::empty()));
    assert((c as nat) as char == c);
    assert(seq![c] + Seq::<char>::empty() =~= seq![c]);
}

} // verus!


