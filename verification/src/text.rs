//! Byte-level text utilities shared by the string pool, the reader and the
//! planner: UTF-8 decoding, byte-sequence comparison, NUL scanning and
//! substring search, each with an exact contract.
//!
//! Strings are modelled throughout by their UTF-8 byte image
//! (`str::spec_bytes`, i.e. `encode_utf8` of the character view), which the
//! encode/decode lemmas of `vstd::utf8` relate back to character sequences.

use vstd::prelude::*;
use vstd::string::StringSliceAdditionalSpecFns;
use vstd::utf8::*;

verus! {

/// Relies on std's `str::from_utf8`: returns `Ok` exactly on valid UTF-8
/// input, and the returned string slice is backed by exactly the given bytes.
/// The error case is collapsed to `None`.
#[verifier::external_body]
pub fn bytes_to_str<'a>(v: &'a [u8]) -> (r: Option<&'a str>)
    ensures
        r is Some <==> valid_utf8(v@),
        (r matches Some(s) ==> s.spec_bytes() == v@),
{
    std::str::from_utf8(v).ok()
}

/// The UTF-8 byte image of `s`, as an owned vector.
pub fn str_to_bytes(s: &str) -> (r: Vec<u8>)
    ensures
        r@ == s.spec_bytes(),
{
    vstd::slice::slice_to_vec(s.as_bytes())
}

/// Exact byte-sequence equality.
pub fn bytes_eq(a: &[u8], b: &[u8]) -> (r: bool)
    ensures
        r == (a@ == b@),
{
    if a.len() != b.len() {
        assert(a@ != b@);
        return false;
    }
    let n = a.len();
    let mut i: usize = 0;
    while i < n
        invariant
            i <= n,
            a@.len() == n,
            b@.len() == n,
            forall|k: int| 0 <= k < i ==> a@[k] == b@[k],
        decreases n - i,
    {
        if *vstd::slice::slice_index_get(a, i) != *vstd::slice::slice_index_get(b, i) {
            assert(a@ != b@);
            return false;
        }
        i = i + 1;
    }
    proof {
        assert(a@ =~= b@);
    }
    true
}

/// Character-exact string equality, decided on the byte images.
pub fn str_eq(a: &str, b: &str) -> (r: bool)
    ensures
        r == (a@ == b@),
{
    let r = bytes_eq(a.as_bytes(), b.as_bytes());
    proof {
        if a.spec_bytes() == b.spec_bytes() {
            encode_utf8_decode_utf8(a@);
            encode_utf8_decode_utf8(b@);
            assert(a@ == b@);
        }
    }
    r
}

/// The index of the first zero byte of `s`, or `s.len()` if none occurs.
pub open spec fn spec_first_nul(s: Seq<u8>) -> int
    decreases s.len(),
{
    if s.len() == 0 {
        0
    } else if s[0] == 0 {
        0
    } else {
        1 + spec_first_nul(s.drop_first())
    }
}

/// `spec_first_nul` indeed points at the first zero byte.
pub proof fn lemma_first_nul(s: Seq<u8>)
    ensures
        0 <= spec_first_nul(s) <= s.len(),
        forall|k: int| 0 <= k < spec_first_nul(s) ==> s[k] != 0,
        spec_first_nul(s) < s.len() ==> s[spec_first_nul(s)] == 0,
    decreases s.len(),
{
    if s.len() == 0 {
    } else if s[0] == 0 {
    } else {
        lemma_first_nul(s.drop_first());
        assert(forall|k: int| 1 <= k < spec_first_nul(s) ==> s[k] == s.drop_first()[k - 1]);
    }
}

/// Any index with the first-zero property is `spec_first_nul`.
pub proof fn lemma_first_nul_unique(s: Seq<u8>, r: int)
    requires
        0 <= r <= s.len(),
        forall|k: int| 0 <= k < r ==> s[k] != 0,
        r < s.len() ==> s[r] == 0,
    ensures
        r == spec_first_nul(s),
    decreases s.len(),
{
    if s.len() == 0 {
    } else if s[0] == 0 {
        if r > 0 {
            assert(s[0] != 0);
        }
    } else {
        assert(r != 0);
        lemma_first_nul_unique(s.drop_first(), r - 1);
    }
}

/// Finds the first zero byte of `b`, or returns `b.len()`.
pub fn first_nul(b: &[u8]) -> (r: usize)
    ensures
        r as int == spec_first_nul(b@),
{
    let n = b.len();
    let mut i: usize = 0;
    while i < n
        invariant
            i <= n,
            b@.len() == n,
            forall|k: int| 0 <= k < i ==> b@[k] != 0,
        decreases n - i,
    {
        if *vstd::slice::slice_index_get(b, i) == 0 {
            proof {
                lemma_first_nul_unique(b@, i as int);
            }
            return i;
        }
        i = i + 1;
    }
    proof {
        lemma_first_nul_unique(b@, n as int);
    }
    n
}

/// The UTF-8 encoding of a scalar contains no zero byte unless the scalar is
/// zero itself: multi-byte sequences use only bytes with the high bit set.
pub proof fn lemma_encode_scalar_no_nul(c: char)
    requires
        c != '\0',
    ensures
        forall|j: int|
            0 <= j < encode_scalar(c as u32).len() ==> #[trigger] encode_scalar(c as u32)[j] != 0,
{
    broadcast use char_is_scalar;

    let s = c as u32;
    char_u32_cast(c, s);
    char_u32_cast('\0', '\0' as u32);
    assert(('\0' as u32) == 0);
    assert(s != 0);
    assert(0x80u8 | ((s & 0x3F) as u8) != 0) by (bit_vector);
    assert(0x80u8 | (((s >> 6) & 0x3F) as u8) != 0) by (bit_vector);
    assert(0x80u8 | (((s >> 12) & 0x3F) as u8) != 0) by (bit_vector);
    if has_width_1_encoding(s) {
        assert(s < 0x80 && s != 0 ==> (s & 0x7F) as u8 != 0) by (bit_vector);
        assert(leading_byte_width_1(s) != 0);
    } else if has_width_2_encoding(s) {
        assert(0xC0u8 | (((s >> 6) & 0x1F) as u8) != 0) by (bit_vector);
        assert(leading_byte_width_2(s) != 0);
        assert(last_continuation_byte(s) != 0);
    } else if has_width_3_encoding(s) {
        assert(0xE0u8 | (((s >> 12) & 0x0F) as u8) != 0) by (bit_vector);
        assert(leading_byte_width_3(s) != 0);
        assert(second_last_continuation_byte(s) != 0);
        assert(last_continuation_byte(s) != 0);
    } else {
        assert(0xF0u8 | (((s >> 18) & 0x7) as u8) != 0) by (bit_vector);
        assert(leading_byte_width_4(s) != 0);
        assert(third_last_continuation_byte(s) != 0);
        assert(second_last_continuation_byte(s) != 0);
        assert(last_continuation_byte(s) != 0);
    }
    assert forall|j: int| 0 <= j < encode_scalar(s).len() implies #[trigger] encode_scalar(s)[j]
        != 0 by {}
}

/// A character sequence is empty exactly when its UTF-8 image is empty.
pub proof fn lemma_encode_empty(chars: Seq<char>)
    ensures
        (encode_utf8(chars).len() == 0) <==> (chars.len() == 0),
{
    if chars.len() > 0 {
        let head = encode_scalar(chars[0] as u32);
        assert(head.len() >= 1);
        assert(encode_utf8(chars) == head + encode_utf8(chars.drop_first()));
    }
}

/// A string without NUL characters encodes to bytes without zero bytes.
pub proof fn lemma_encode_no_nul(chars: Seq<char>)
    requires
        forall|i: int| 0 <= i < chars.len() ==> chars[i] != '\0',
    ensures
        forall|j: int|
            0 <= j < encode_utf8(chars).len() ==> #[trigger] encode_utf8(chars)[j] != 0,
    decreases chars.len(),
{
    if chars.len() == 0 {
    } else {
        lemma_encode_scalar_no_nul(chars[0]);
        assert(forall|i: int| 0 <= i < chars.drop_first().len() ==> chars.drop_first()[i] != '\0');
        lemma_encode_no_nul(chars.drop_first());
        let head = encode_scalar(chars[0] as u32);
        let tail = encode_utf8(chars.drop_first());
        assert(encode_utf8(chars) == head + tail);
        assert forall|j: int| 0 <= j < encode_utf8(chars).len() implies #[trigger] encode_utf8(
            chars,
        )[j] != 0 by {
            if j < head.len() {
                assert(encode_utf8(chars)[j] == head[j]);
            } else {
                assert(encode_utf8(chars)[j] == tail[j - head.len()]);
            }
        }
    }
}

/// The index of the first occurrence of `t` in `s` at or after `from`, or
/// `s.len()` if none occurs there.
pub open spec fn spec_find_byte(s: Seq<u8>, from: int, t: u8) -> int
    recommends
        0 <= from <= s.len(),
    decreases s.len() - from,
{
    if from < 0 || from >= s.len() {
        s.len() as int
    } else if s[from] == t {
        from
    } else {
        spec_find_byte(s, from + 1, t)
    }
}

/// Any index with the first-occurrence property is `spec_find_byte`.
pub proof fn lemma_find_byte_unique(s: Seq<u8>, from: int, t: u8, r: int)
    requires
        0 <= from <= s.len(),
        from <= r <= s.len(),
        forall|k: int| from <= k < r ==> s[k] != t,
        r < s.len() ==> s[r] == t,
    ensures
        r == spec_find_byte(s, from, t),
    decreases s.len() - from,
{
    if from >= s.len() {
    } else if s[from] == t {
        if r > from {
            assert(s[from] != t);
        }
    } else {
        assert(r != from);
        lemma_find_byte_unique(s, from + 1, t, r);
    }
}

/// `spec_find_byte` indeed points at the first occurrence.
pub proof fn lemma_find_byte(s: Seq<u8>, from: int, t: u8)
    requires
        0 <= from <= s.len(),
    ensures
        from <= spec_find_byte(s, from, t) <= s.len(),
        forall|k: int| from <= k < spec_find_byte(s, from, t) ==> s[k] != t,
        spec_find_byte(s, from, t) < s.len() ==> s[spec_find_byte(s, from, t)] == t,
    decreases s.len() - from,
{
    if from >= s.len() {
    } else if s[from] == t {
    } else {
        lemma_find_byte(s, from + 1, t);
    }
}

/// Finds the first occurrence of `t` in `b` at or after `from`, or `b.len()`.
pub fn find_byte(b: &[u8], from: usize, t: u8) -> (r: usize)
    requires
        from <= b@.len(),
    ensures
        r as int == spec_find_byte(b@, from as int, t),
        from <= r <= b@.len(),
{
    let n = b.len();
    let mut i: usize = from;
    while i < n
        invariant
            from <= i <= n,
            b@.len() == n,
            forall|k: int| from <= k < i ==> b@[k] != t,
        decreases n - i,
    {
        if *vstd::slice::slice_index_get(b, i) == t {
            proof {
                lemma_find_byte_unique(b@, from as int, t, i as int);
            }
            return i;
        }
        i = i + 1;
    }
    proof {
        lemma_find_byte_unique(b@, from as int, t, n as int);
    }
    n
}

/// The index just past the last occurrence of `t` in `s`, or `0` if none
/// occurs: the split point that keeps everything before the last `t`.
pub open spec fn spec_rfind_byte(s: Seq<u8>, t: u8) -> int
    decreases s.len(),
{
    if s.len() == 0 {
        0
    } else if s[s.len() - 1] == t {
        s.len() as int
    } else {
        spec_rfind_byte(s.drop_last(), t)
    }
}

/// Any index with the last-occurrence property is `spec_rfind_byte`.
pub proof fn lemma_rfind_byte_unique(s: Seq<u8>, t: u8, r: int)
    requires
        0 <= r <= s.len(),
        forall|k: int| r <= k < s.len() ==> s[k] != t,
        r > 0 ==> s[r - 1] == t,
    ensures
        r == spec_rfind_byte(s, t),
    decreases s.len(),
{
    if s.len() == 0 {
    } else if s[s.len() - 1] == t {
        if r < s.len() {
            assert(s[s.len() - 1] != t);
        }
    } else {
        assert(r < s.len());
        assert(forall|k: int| r <= k < s.drop_last().len() ==> s.drop_last()[k] == s[k]);
        lemma_rfind_byte_unique(s.drop_last(), t, r);
    }
}

/// `spec_rfind_byte` indeed points just past the last occurrence.
pub proof fn lemma_rfind_byte(s: Seq<u8>, t: u8)
    ensures
        0 <= spec_rfind_byte(s, t) <= s.len(),
        forall|k: int| spec_rfind_byte(s, t) <= k < s.len() ==> s[k] != t,
        spec_rfind_byte(s, t) > 0 ==> s[spec_rfind_byte(s, t) - 1] == t,
    decreases s.len(),
{
    if s.len() == 0 {
    } else if s[s.len() - 1] == t {
    } else {
        lemma_rfind_byte(s.drop_last(), t);
        assert(forall|k: int| 0 <= k < s.len() - 1 ==> s[k] == s.drop_last()[k]);
    }
}

/// Finds the index just past the last occurrence of `t` in `b`, or `0`.
pub fn rfind_byte(b: &[u8], t: u8) -> (r: usize)
    ensures
        r as int == spec_rfind_byte(b@, t),
        r <= b@.len(),
{
    let n = b.len();
    let mut i: usize = n;
    while i > 0
        invariant
            i <= n,
            b@.len() == n,
            forall|k: int| i <= k < n ==> b@[k] != t,
        decreases i,
    {
        if *vstd::slice::slice_index_get(b, i - 1) == t {
            proof {
                lemma_rfind_byte_unique(b@, t, i as int);
            }
            return i;
        }
        i = i - 1;
    }
    proof {
        lemma_rfind_byte_unique(b@, t, 0);
    }
    0
}

/// Dropping a leading ASCII byte from a valid UTF-8 sequence leaves a valid
/// sequence: an ASCII byte always encodes one whole scalar.
pub proof fn lemma_valid_utf8_drop_ascii_first(t: Seq<u8>)
    requires
        valid_utf8(t),
        t.len() > 0,
        t[0] < 0x80,
    ensures
        valid_utf8(t.drop_first()),
{
    assert(is_leading_byte_width_1(t[0]));
    assert(length_of_first_scalar(t) == 1);
    assert(pop_first_scalar(t) =~= t.drop_first());
}

/// A byte run cut out of a valid UTF-8 sequence is itself valid UTF-8
/// whenever the bytes just before and just at its ends (if any) are ASCII:
/// ASCII delimiters always sit on character boundaries.
pub proof fn lemma_valid_utf8_ascii_cut(bytes: Seq<u8>, a: int, b: int)
    requires
        valid_utf8(bytes),
        0 <= a <= b <= bytes.len(),
        a == 0 || bytes[a - 1] < 0x80,
        b == bytes.len() || bytes[b] < 0x80,
    ensures
        valid_utf8(bytes.subrange(a, b)),
{
    // Split off everything past b: the byte at b (if any) is ASCII, hence
    // not a continuation byte, hence a character boundary.
    if b == bytes.len() {
        is_char_boundary_start_end_of_seq(bytes);
    } else {
        is_char_boundary_iff_not_is_continuation_byte(bytes, b);
    }
    assert(is_char_boundary(bytes, b));
    valid_utf8_split(bytes, b);
    let head = bytes.subrange(0, b);
    assert(valid_utf8(head));
    if a == 0 {
        assert(bytes.subrange(a, b) =~= head);
    } else {
        // The byte at a - 1 is ASCII, hence a boundary of `head`.
        assert(head[a - 1] == bytes[a - 1]);
        is_char_boundary_iff_not_is_continuation_byte(head, a - 1);
        assert(is_char_boundary(head, a - 1));
        valid_utf8_split(head, a - 1);
        let tail = head.subrange(a - 1, head.len() as int);
        assert(valid_utf8(tail));
        assert(tail[0] == bytes[a - 1]);
        lemma_valid_utf8_drop_ascii_first(tail);
        assert(bytes.subrange(a, b) =~= tail.drop_first());
    }
}

/// The substring `[a, b)` of the UTF-8 image of a string, as an owned
/// `String`, for cuts whose surrounding bytes are ASCII delimiters.
pub fn substr_to_string(bytes: &[u8], a: usize, b: usize) -> (r: String)
    requires
        a <= b <= bytes@.len(),
        valid_utf8(bytes@),
        a == 0 || bytes@[a - 1] < 0x80,
        b == bytes@.len() || bytes@[b as int] < 0x80,
    ensures
        encode_utf8(r@) == bytes@.subrange(a as int, b as int),
{
    proof {
        lemma_valid_utf8_ascii_cut(bytes@, a as int, b as int);
    }
    let seg = vstd::slice::slice_subrange(bytes, a, b);
    match bytes_to_str(seg) {
        Some(s) => s.to_owned(),
        None => {
            proof {
                assert(false);
            }
            String::new()
        },
    }
}

/// ASCII lowercasing of one byte: `A`..`Z` map to `a`..`z`.
pub open spec fn spec_lower_byte(b: u8) -> u8 {
    if 65 <= b && b <= 90 {
        (b + 32) as u8
    } else {
        b
    }
}

/// ASCII lowercasing of a byte sequence.
pub open spec fn spec_lower_bytes(s: Seq<u8>) -> Seq<u8> {
    Seq::new(s.len(), |i: int| spec_lower_byte(s[i]))
}

/// ASCII lowercasing, byte by byte.
pub fn lower_bytes(b: &[u8]) -> (r: Vec<u8>)
    ensures
        r@ == spec_lower_bytes(b@),
{
    let n = b.len();
    let mut out: Vec<u8> = Vec::new();
    let mut i: usize = 0;
    while i < n
        invariant
            i <= n,
            b@.len() == n,
            out@ == spec_lower_bytes(b@.take(i as int)),
        decreases n - i,
    {
        let c = *vstd::slice::slice_index_get(b, i);
        let lowered = if 65 <= c && c <= 90 {
            c + 32
        } else {
            c
        };
        out.push(lowered);
        proof {
            assert(out@ =~= spec_lower_bytes(b@.take(i + 1)));
        }
        i = i + 1;
    }
    proof {
        assert(b@.take(n as int) =~= b@);
    }
    out
}

/// Whether `needle` occurs as a contiguous byte run inside `hay`.
pub open spec fn spec_contains_bytes(hay: Seq<u8>, needle: Seq<u8>) -> bool {
    exists|k: int|
        0 <= k && k + needle.len() <= hay.len() && #[trigger] hay.subrange(k, k + needle.len())
            == needle
}

/// Naive substring search over bytes.
pub fn contains_bytes(hay: &[u8], needle: &[u8]) -> (r: bool)
    ensures
        r == spec_contains_bytes(hay@, needle@),
{
    let n = hay.len();
    let m = needle.len();
    if m > n {
        proof {
            assert(!spec_contains_bytes(hay@, needle@));
        }
        return false;
    }
    if m == 0 {
        proof {
            assert(hay@.subrange(0, 0 + needle@.len() as int) =~= needle@);
        }
        return true;
    }
    let mut k: usize = 0;
    while k <= n - m
        invariant
            0 < m <= n,
            hay@.len() == n,
            needle@.len() == m,
            k <= n - m + 1,
            forall|k0: int| 0 <= k0 < k ==> #[trigger] hay@.subrange(k0, k0 + m as int) != needle@,
        decreases n - m + 1 - k,
    {
        let window = vstd::slice::slice_subrange(hay, k, k + m);
        if bytes_eq(window, needle) {
            proof {
                assert(hay@.subrange(k as int, k as int + needle@.len()) == needle@);
            }
            return true;
        }
        k = k + 1;
    }
    proof {
        assert(!spec_contains_bytes(hay@, needle@));
    }
    false
}

} // verus!
