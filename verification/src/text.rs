//! Byte- and character-level helpers over UTF-8 source text.
//!
//! Positions are byte offsets into `source.spec_bytes()`, the UTF-8 encoding of the text.
//! Substring tests compare bytes, as `str::contains` and `str::starts_with` do, while
//! whitespace tests and column counts look at the decoded characters.
use vstd::prelude::*;
use vstd::string::*;
use vstd::utf8::*;

verus! {

pub const NEWLINE: u8 = 10;

/// The byte sequence `needle` occurs in `hay` at offset `i`.
pub open spec fn occurs_at(hay: Seq<u8>, needle: Seq<u8>, i: int) -> bool {
    &&& 0 <= i
    &&& i + needle.len() <= hay.len()
    &&& hay.subrange(i, i + needle.len()) == needle
}

/// The byte sequence `needle` occurs somewhere in `hay`.
pub open spec fn contains_bytes(hay: Seq<u8>, needle: Seq<u8>) -> bool {
    exists|i: int| occurs_at(hay, needle, i)
}

/// `part` occurs in `s`, as `str::contains` finds it: among the UTF-8 bytes.
pub open spec fn has_sub(s: Seq<char>, part: Seq<char>) -> bool {
    contains_bytes(encode_utf8(s), encode_utf8(part))
}

/// The characters of `s` between the byte offsets `a` and `b`.
pub open spec fn text_of(s: &str, a: int, b: int) -> Seq<char> {
    decode_utf8(s.spec_bytes().subrange(a, b))
}

/// `i` is a character boundary of `s`, as `str::is_char_boundary` says.
pub open spec fn is_boundary(s: &str, i: int) -> bool {
    is_char_boundary(s.spec_bytes(), i)
}

/// A character with the Unicode `White_Space` property, the whitespace that `str::trim`
/// removes.
pub open spec fn is_white_space(c: char) -> bool {
    let u = c as u32;
    ||| 0x09 <= u <= 0x0D
    ||| u == 0x20
    ||| u == 0x85
    ||| u == 0xA0
    ||| u == 0x1680
    ||| 0x2000 <= u <= 0x200A
    ||| u == 0x2028
    ||| u == 0x2029
    ||| u == 0x202F
    ||| u == 0x205F
    ||| u == 0x3000
}

/// Every character is whitespace, so that trimming leaves nothing.
pub open spec fn is_blank_chars(s: Seq<char>) -> bool {
    forall|i: int| 0 <= i < s.len() ==> is_white_space(#[trigger] s[i])
}

/// The number of UTF-16 code units that encode `s`: two for a character outside the Basic
/// Multilingual Plane, one for any other.
pub open spec fn utf16_units(s: Seq<char>) -> nat
    decreases s.len(),
{
    if s.len() == 0 {
        0
    } else {
        utf16_units(s.drop_last()) + if s.last() as u32 > 0xFFFF {
            2nat
        } else {
            1nat
        }
    }
}

/// The bytes `' '`, `'\t'` and `'\r'`, which trailing whitespace consists of.
pub open spec fn is_trailing_space(b: u8) -> bool {
    b == 32 || b == 9 || b == 13
}

/// The bytes that `u8::is_ascii_whitespace` accepts.
pub open spec fn is_ascii_space(b: u8) -> bool {
    b == 32 || b == 9 || b == 10 || b == 12 || b == 13
}

/// `b` in lower case when it is an ASCII capital letter.
pub open spec fn ascii_lower(b: u8) -> u8 {
    if 65 <= b <= 90 {
        (b + 32) as u8
    } else {
        b
    }
}

/// The two byte sequences are equal up to ASCII case, as `eq_ignore_ascii_case` compares.
pub open spec fn eq_ascii_case(a: Seq<u8>, b: Seq<u8>) -> bool {
    &&& a.len() == b.len()
    &&& forall|i: int| 0 <= i < a.len() ==> ascii_lower(#[trigger] a[i]) == ascii_lower(b[i])
}

/// The strings of `list` taken by their characters.
pub open spec fn names(list: Seq<&str>) -> Seq<Seq<char>> {
    list.map_values(|s: &str| s@)
}

// ---------------------------------------------------------------------------------------------
// Lines
/// The number of line feeds among the first `i` bytes: the 0-based line of offset `i`.
pub open spec fn newlines_before(b: Seq<u8>, i: int) -> nat
    decreases i,
{
    if i <= 0 {
        0
    } else {
        newlines_before(b, i - 1) + if b[i - 1] == NEWLINE {
            1nat
        } else {
            0nat
        }
    }
}

/// The offset where the line holding offset `i` starts.
pub open spec fn line_start_of(b: Seq<u8>, i: int) -> int
    decreases i,
{
    if i <= 0 {
        0
    } else if b[i - 1] == NEWLINE {
        i
    } else {
        line_start_of(b, i - 1)
    }
}

/// The offset of the first line feed at or after `i`, or the end of `b`.
pub open spec fn line_end_from(b: Seq<u8>, i: int) -> int
    decreases b.len() - i,
{
    if i >= b.len() {
        b.len() as int
    } else if i >= 0 && b[i] == NEWLINE {
        i
    } else {
        line_end_from(b, i + 1)
    }
}

/// The offsets where lines start among the first `n` bytes: 0 and each offset after a line feed.
pub open spec fn line_starts_upto(b: Seq<u8>, n: int) -> Seq<usize>
    decreases n,
{
    if n <= 0 {
        seq![0usize]
    } else if b[n - 1] == NEWLINE {
        line_starts_upto(b, n - 1).push(n as usize)
    } else {
        line_starts_upto(b, n - 1)
    }
}

/// The offsets where the lines of `b` start.
pub open spec fn line_starts(b: Seq<u8>) -> Seq<usize> {
    line_starts_upto(b, b.len() as int)
}

/// The number of lines that `str::lines` yields: a final line feed ends the last line instead of
/// starting an empty one.
pub open spec fn line_count(b: Seq<u8>) -> nat {
    if b.len() == 0 {
        0
    } else if b.last() == NEWLINE {
        newlines_before(b, b.len() as int)
    } else {
        newlines_before(b, b.len() as int) + 1
    }
}

pub proof fn lemma_line_starts_shape(b: Seq<u8>, n: int)
    requires
        b.len() <= usize::MAX,
        0 <= n <= b.len(),
    ensures
        line_starts_upto(b, n).len() == newlines_before(b, n) + 1,
        line_starts_upto(b, n)[0] == 0,
        line_starts_upto(b, n).last() == line_start_of(b, n),
        forall|k: int|
            0 <= k < line_starts_upto(b, n).len() ==> #[trigger] line_starts_upto(b, n)[k] <= n,
        forall|j: int, k: int|
            0 <= j < k < line_starts_upto(b, n).len() ==> line_starts_upto(b, n)[j]
                < line_starts_upto(b, n)[k],
        forall|k: int|
            0 < k < line_starts_upto(b, n).len() ==> b[line_starts_upto(b, n)[k] - 1] == NEWLINE,
    decreases n,
{
    if n > 0 {
        lemma_line_starts_shape(b, n - 1);
        let p = line_starts_upto(b, n - 1);
        let q = line_starts_upto(b, n);
        if b[n - 1] == NEWLINE {
            assert(q == p.push(n as usize));
            assert forall|k: int| 0 <= k < p.len() implies q[k] == p[k] by {}
            assert forall|j: int, k: int| 0 <= j < k < q.len() implies q[j] < q[k] by {
                assert(q[j] == p[j]);
                assert(p[j] <= n - 1);
                if k < q.len() - 1 {
                    assert(q[k] == p[k]);
                    assert(p[j] < p[k]);
                }
            }
            assert(q.last() == n);
        } else {
            assert(q == p);
        }
    }
}

/// Line starts up to `i` form a prefix of those up to `n`.
pub proof fn lemma_line_starts_prefix(b: Seq<u8>, i: int, n: int)
    requires
        b.len() <= usize::MAX,
        0 <= i <= n <= b.len(),
    ensures
        line_starts_upto(b, n).len() >= line_starts_upto(b, i).len(),
        line_starts_upto(b, n).take(line_starts_upto(b, i).len() as int) == line_starts_upto(b, i),
        forall|k: int|
            line_starts_upto(b, i).len() <= k < line_starts_upto(b, n).len() ==> #[trigger] line_starts_upto(b, n)[k]
                > i,
    decreases n - i,
{
    lemma_line_starts_shape(b, n);
    if i < n {
        lemma_line_starts_prefix(b, i, n - 1);
        lemma_line_starts_shape(b, n - 1);
        let p = line_starts_upto(b, n - 1);
        if b[n - 1] == NEWLINE {
            assert(p.push(n as usize).take(line_starts_upto(b, i).len() as int) =~= p.take(
                line_starts_upto(b, i).len() as int,
            ));
        }
    } else {
        assert(line_starts_upto(b, n).take(line_starts_upto(b, n).len() as int) =~= line_starts_upto(
            b,
            n,
        ));
    }
}

/// Among the line starts of `b`, exactly the first `newlines_before(b, i) + 1` are at most `i`,
/// and the last of those is `line_start_of(b, i)`.
pub proof fn lemma_line_of(b: Seq<u8>, i: int)
    requires
        b.len() <= usize::MAX,
        0 <= i <= b.len(),
    ensures
        newlines_before(b, i) < line_starts(b).len(),
        line_starts(b)[newlines_before(b, i) as int] == line_start_of(b, i),
        forall|k: int|
            0 <= k < line_starts(b).len() ==> (#[trigger] line_starts(b)[k] <= i <==> k
                <= newlines_before(b, i)),
{
    let n = b.len() as int;
    lemma_line_starts_prefix(b, i, n);
    lemma_line_starts_shape(b, i);
    lemma_line_starts_shape(b, n);
    let ls = line_starts(b);
    let pre = line_starts_upto(b, i);
    assert(ls[newlines_before(b, i) as int] == pre[newlines_before(b, i) as int]) by {
        assert(ls.take(pre.len() as int)[newlines_before(b, i) as int] == ls[newlines_before(
            b,
            i,
        ) as int]);
    }
    assert forall|k: int| 0 <= k < ls.len() implies (#[trigger] ls[k] <= i <==> k <= newlines_before(
        b,
        i,
    )) by {
        if k < pre.len() {
            assert(ls.take(pre.len() as int)[k] == ls[k]);
        }
    }
}

pub proof fn lemma_line_start_of_bounds(b: Seq<u8>, i: int)
    requires
        0 <= i <= b.len(),
    ensures
        0 <= line_start_of(b, i) <= i,
        line_start_of(b, i) == 0 || b[line_start_of(b, i) - 1] == NEWLINE,
        forall|j: int| line_start_of(b, i) <= j < i ==> #[trigger] b[j] != NEWLINE,
        newlines_before(b, line_start_of(b, i)) == newlines_before(b, i),
    decreases i,
{
    if i > 0 && b[i - 1] != NEWLINE {
        lemma_line_start_of_bounds(b, i - 1);
    }
}

pub proof fn lemma_line_end_from_bounds(b: Seq<u8>, i: int)
    requires
        0 <= i <= b.len(),
    ensures
        i <= line_end_from(b, i) <= b.len(),
        line_end_from(b, i) == b.len() || b[line_end_from(b, i)] == NEWLINE,
        forall|j: int| i <= j < line_end_from(b, i) ==> #[trigger] b[j] != NEWLINE,
    decreases b.len() - i,
{
    if i < b.len() && b[i] != NEWLINE {
        lemma_line_end_from_bounds(b, i + 1);
    }
}

/// Offsets without a line feed between them lie on the same line.
pub proof fn lemma_newlines_between(b: Seq<u8>, i: int, j: int)
    requires
        0 <= i <= j <= b.len(),
    ensures
        newlines_before(b, i) <= newlines_before(b, j),
        (forall|k: int| i <= k < j ==> #[trigger] b[k] != NEWLINE) ==> newlines_before(b, i)
            == newlines_before(b, j),
        (exists|k: int| i <= k < j && #[trigger] b[k] == NEWLINE) ==> newlines_before(b, i)
            < newlines_before(b, j),
    decreases j - i,
{
    if i < j {
        lemma_newlines_between(b, i, j - 1);
        if exists|k: int| i <= k < j && #[trigger] b[k] == NEWLINE {
            let k = choose|k: int| i <= k < j && #[trigger] b[k] == NEWLINE;
            if k < j - 1 {
                assert(exists|k2: int| i <= k2 < j - 1 && #[trigger] b[k2] == NEWLINE);
            }
        }
    }
}

/// There are no more line feeds before `i` than bytes.
pub proof fn lemma_newlines_le(b: Seq<u8>, i: int)
    requires
        0 <= i <= b.len(),
    ensures
        newlines_before(b, i) <= i,
    decreases i,
{
    if i > 0 {
        lemma_newlines_le(b, i - 1);
    }
}

/// The first line feed at or after `i` is the first at or after `j` when none lies between them.
pub proof fn lemma_line_end_skip(b: Seq<u8>, i: int, j: int)
    requires
        0 <= i <= j <= b.len(),
        forall|k: int| i <= k < j ==> #[trigger] b[k] != NEWLINE,
    ensures
        line_end_from(b, i) == line_end_from(b, j),
    decreases j - i,
{
    if i < j {
        lemma_line_end_skip(b, i + 1, j);
    }
}

/// Finds the last element of the sorted `v` that is at most `x`.
pub fn last_at_most(v: &Vec<usize>, x: usize) -> (r: usize)
    requires
        v@.len() > 0,
        v@[0] <= x,
        forall|j: int, k: int| 0 <= j < k < v@.len() ==> v@[j] < v@[k],
    ensures
        r < v@.len(),
        v@[r as int] <= x,
        r + 1 < v@.len() ==> v@[r + 1] > x,
{
    let mut lo: usize = 0;
    let mut hi: usize = v.len();
    while lo + 1 < hi
        invariant
            0 <= lo < hi <= v@.len(),
            v@[lo as int] <= x,
            hi < v@.len() ==> v@[hi as int] > x,
            forall|j: int, k: int| 0 <= j < k < v@.len() ==> v@[j] < v@[k],
        decreases hi - lo,
    {
        let mid = lo + (hi - lo) / 2;
        if v[mid] <= x {
            lo = mid;
        } else {
            hi = mid;
        }
    }
    lo
}

// ---------------------------------------------------------------------------------------------
// UTF-8 facts
pub proof fn lemma_encode_append(a: Seq<char>, b: Seq<char>)
    ensures
        encode_utf8(a + b) == encode_utf8(a) + encode_utf8(b),
    decreases a.len(),
{
    if a.len() == 0 {
        assert(a + b =~= b);
    } else {
        lemma_encode_append(a.drop_first(), b);
        assert((a + b).drop_first() =~= a.drop_first() + b);
        assert((a + b)[0] == a[0]);
    }
}

pub proof fn lemma_scalar_width(c: char)
    ensures
        encode_scalar(c as u32).len() >= if c as u32 > 0xFFFF {
            2int
        } else {
            1int
        },
{
    char_is_scalar(c);
}

/// A character needs at least as many UTF-8 bytes as UTF-16 code units.
pub proof fn lemma_utf16_units_le_bytes(s: Seq<char>)
    ensures
        utf16_units(s) <= encode_utf8(s).len(),
    decreases s.len(),
{
    if s.len() > 0 {
        let init = s.drop_last();
        let c = s.last();
        lemma_utf16_units_le_bytes(init);
        assert(s =~= init + seq![c]);
        lemma_encode_append(init, seq![c]);
        assert(seq![c].drop_first() =~= Seq::<char>::empty());
        assert(encode_utf8(seq![c]) =~= encode_scalar(seq![c][0] as u32) + encode_utf8(
            Seq::<char>::empty(),
        ));
        lemma_scalar_width(c);
    }
}

pub proof fn lemma_utf16_units_prefix(s: Seq<char>, k: int)
    requires
        0 <= k <= s.len(),
    ensures
        utf16_units(s.take(k)) <= utf16_units(s),
    decreases s.len() - k,
{
    if k < s.len() {
        lemma_utf16_units_prefix(s, k + 1);
        assert(s.take(k + 1).drop_last() =~= s.take(k));
    } else {
        assert(s.take(k) =~= s);
    }
}

/// An ASCII byte starts a character of its own.
pub proof fn lemma_ascii_is_boundary(bytes: Seq<u8>, i: int)
    requires
        valid_utf8(bytes),
        0 <= i <= bytes.len(),
        i < bytes.len() ==> bytes[i] < 0x80,
    ensures
        is_char_boundary(bytes, i),
{
    is_char_boundary_start_end_of_seq(bytes);
    if i < bytes.len() {
        is_char_boundary_iff_not_is_continuation_byte(bytes, i);
    }
}

/// The character after an ASCII byte starts at a boundary.
pub proof fn lemma_after_ascii(bytes: Seq<u8>, i: int)
    requires
        valid_utf8(bytes),
        0 < i <= bytes.len(),
        bytes[i - 1] < 0x80,
    ensures
        is_char_boundary(bytes, i),
    decreases bytes.len(),
{
    let l = length_of_first_scalar(bytes);
    if i - 1 < l {
        assert(l == 1);
        reveal_with_fuel(is_char_boundary, 2);
        assert(is_char_boundary(pop_first_scalar(bytes), 0));
    } else {
        let rest = pop_first_scalar(bytes);
        assert(rest.len() == bytes.len() - l);
        assert(rest[i - 1 - l] == bytes[i - 1]);
        lemma_after_ascii(rest, i - l);
    }
}

/// Boundaries of a string are boundaries of its suffix.
pub proof fn lemma_boundary_in_suffix(bytes: Seq<u8>, a: int, b: int)
    requires
        valid_utf8(bytes),
        0 <= a <= b <= bytes.len(),
        is_char_boundary(bytes, a),
        is_char_boundary(bytes, b),
    ensures
        valid_utf8(bytes.subrange(a, bytes.len() as int)),
        is_char_boundary(bytes.subrange(a, bytes.len() as int), b - a),
{
    let tail = bytes.subrange(a, bytes.len() as int);
    valid_utf8_split(bytes, a);
    is_char_boundary_start_end_of_seq(tail);
    if b < bytes.len() {
        is_char_boundary_iff_not_is_continuation_byte(bytes, b);
        is_char_boundary_iff_not_is_continuation_byte(tail, b - a);
    }
}

// ---------------------------------------------------------------------------------------------
// Executable helpers
/// The part of `s` between two character boundaries, `&s[a..b]`.
pub fn substr<'a>(s: &'a str, a: usize, b: usize) -> (r: &'a str)
    requires
        a <= b <= s.spec_bytes().len(),
        is_boundary(s, a as int),
        is_boundary(s, b as int),
    ensures
        r.spec_bytes() == s.spec_bytes().subrange(a as int, b as int),
        r@ == text_of(s, a as int, b as int),
{
    proof {
        encode_utf8_valid_utf8(s@);
        lemma_boundary_in_suffix(s.spec_bytes(), a as int, b as int);
    }
    let (_, tail) = s.split_at(a);
    proof {
        assert(tail.spec_bytes() =~= s.spec_bytes().subrange(a as int, s.spec_bytes().len() as int));
    }
    let (r, _) = tail.split_at(b - a);
    proof {
        assert(r.spec_bytes() =~= s.spec_bytes().subrange(a as int, b as int));
        encode_utf8_decode_utf8(r@);
    }
    r
}

pub fn bytes_occur_at(hay: &[u8], needle: &[u8], i: usize) -> (r: bool)
    ensures
        r == occurs_at(hay@, needle@, i as int),
{
    let n = hay.len();
    if i > n || needle.len() > n - i {
        return false;
    }
    let mut k: usize = 0;
    while k < needle.len()
        invariant
            n == hay@.len(),
            i + needle@.len() <= hay@.len(),
            k <= needle@.len(),
            forall|j: int| 0 <= j < k ==> hay@[i + j] == needle@[j],
        decreases needle@.len() - k,
    {
        assert(i + k < hay@.len());
        if hay[i + k] != needle[k] {
            proof {
                assert(hay@.subrange(i as int, i + needle@.len())[k as int] != needle@[k as int]);
            }
            return false;
        }
        k = k + 1;
    }
    proof {
        assert(hay@.subrange(i as int, i + needle@.len()) =~= needle@);
    }
    true
}

pub fn bytes_contain(hay: &[u8], needle: &[u8]) -> (r: bool)
    ensures
        r == contains_bytes(hay@, needle@),
{
    let mut i: usize = 0;
    loop
        invariant
            i <= hay@.len(),
            forall|j: int| 0 <= j < i ==> !occurs_at(hay@, needle@, j),
        decreases hay@.len() - i,
    {
        if bytes_occur_at(hay, needle, i) {
            return true;
        }
        if i == hay.len() {
            assert forall|j: int| !occurs_at(hay@, needle@, j) by {
                if 0 <= j && j > i {
                    assert(j + needle@.len() > hay@.len());
                }
            }
            return false;
        }
        i = i + 1;
    }
}

pub fn bytes_eq(a: &[u8], b: &[u8]) -> (r: bool)
    ensures
        r == (a@ == b@),
{
    if a.len() != b.len() {
        return false;
    }
    let r = bytes_occur_at(a, b, 0);
    proof {
        assert(a@.subrange(0, b@.len() as int) =~= a@);
    }
    r
}

/// Whether the two strings are equal.
pub fn str_eq(a: &str, b: &str) -> (r: bool)
    ensures
        r == (a@ == b@),
{
    let r = bytes_eq(a.as_bytes(), b.as_bytes());
    proof {
        encode_utf8_decode_utf8(a@);
        encode_utf8_decode_utf8(b@);
    }
    r
}

/// `hay.contains(needle)`.
pub fn str_contains(hay: &str, needle: &str) -> (r: bool)
    ensures
        r == has_sub(hay@, needle@),
{
    bytes_contain(hay.as_bytes(), needle.as_bytes())
}

/// `list.contains(&s)`.
pub fn list_contains(list: &Vec<&str>, s: &str) -> (r: bool)
    ensures
        r == names(list@).contains(s@),
{
    let mut i: usize = 0;
    while i < list.len()
        invariant
            i <= list@.len(),
            forall|j: int| 0 <= j < i ==> (#[trigger] list@[j])@ != s@,
        decreases list@.len() - i,
    {
        if str_eq(list[i], s) {
            proof {
                assert(names(list@)[i as int] == s@);
            }
            return true;
        }
        i = i + 1;
    }
    proof {
        if names(list@).contains(s@) {
            let j = choose|j: int| 0 <= j < names(list@).len() && names(list@)[j] == s@;
            assert(list@[j]@ == s@);
        }
    }
    false
}

/// `a.eq_ignore_ascii_case(b)`.
pub fn bytes_eq_ascii_case(a: &[u8], b: &[u8]) -> (r: bool)
    ensures
        r == eq_ascii_case(a@, b@),
{
    if a.len() != b.len() {
        return false;
    }
    let mut i: usize = 0;
    while i < a.len()
        invariant
            a@.len() == b@.len(),
            i <= a@.len(),
            forall|j: int| 0 <= j < i ==> ascii_lower(#[trigger] a@[j]) == ascii_lower(b@[j]),
        decreases a@.len() - i,
    {
        let x = a[i];
        let y = b[i];
        let lx = if 65 <= x && x <= 90 {
            x + 32
        } else {
            x
        };
        let ly = if 65 <= y && y <= 90 {
            y + 32
        } else {
            y
        };
        if lx != ly {
            return false;
        }
        i = i + 1;
    }
    true
}

/// `c.is_whitespace()`.
pub fn char_is_white_space(c: char) -> (r: bool)
    ensures
        r == is_white_space(c),
{
    let u = c as u32;
    (0x09 <= u && u <= 0x0D) || u == 0x20 || u == 0x85 || u == 0xA0 || u == 0x1680 || (0x2000 <= u
        && u <= 0x200A) || u == 0x2028 || u == 0x2029 || u == 0x202F || u == 0x205F || u == 0x3000
}

/// `s.trim().is_empty()`.
pub fn is_blank(s: &str) -> (r: bool)
    ensures
        r == is_blank_chars(s@),
{
    broadcast use vstd::string::axiom_spec_iter;

    let mut blank = true;
    for c in it: s.chars()
        invariant
            it.seq() == s@,
            blank == (forall|i: int| 0 <= i < it.index() ==> is_white_space(#[trigger] s@[i])),
    {
        if !char_is_white_space(c) {
            blank = false;
        }
    }
    blank
}

/// `s.encode_utf16().count()`.
pub fn utf16_len(s: &str) -> (r: usize)
    requires
        s.spec_bytes().len() <= u32::MAX,
    ensures
        r == utf16_units(s@),
{
    broadcast use vstd::string::axiom_spec_iter;

    proof {
        lemma_utf16_units_le_bytes(s@);
    }
    let mut count: usize = 0;
    for c in it: s.chars()
        invariant
            it.seq() == s@,
            utf16_units(s@) <= u32::MAX,
            count == utf16_units(s@.take(it.index() as int)),
    {
        proof {
            assert(s@.take(it.index() + 1).drop_last() =~= s@.take(it.index() as int));
            lemma_utf16_units_prefix(s@, it.index() + 1);
        }
        if (c as u32) > 0xFFFF {
            count = count + 2;
        } else {
            count = count + 1;
        }
    }
    proof {
        assert(s@.take(s@.len() as int) =~= s@);
    }
    count
}

} // verus!
