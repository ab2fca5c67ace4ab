//! Facts about UTF-8 text that the parsers and renderers share, and the few operations on
//! `str` and `String` that they are built from.
use vstd::prelude::*;
use vstd::utf8::*;
use vstd::string::*;

verus! {

/// `String::push` appends one character.
pub assume_specification[ String::push ](s: &mut String, ch: char)
    ensures
        final(s)@ == old(s)@.push(ch),
;

/// `String::push_str` appends the characters of `string`.
pub assume_specification[ String::push_str ](s: &mut String, string: &str)
    ensures
        final(s)@ == old(s)@ + string@,
;

/// `Range` clones each of its two bounds (its `Clone` is derived).
pub assume_specification<Idx: Clone>[ <std::ops::Range<Idx> as Clone>::clone ](
    r: &std::ops::Range<Idx>,
) -> (res: std::ops::Range<Idx>)
    ensures
        cloned::<Idx>(r.start, res.start),
        cloned::<Idx>(r.end, res.end),
;

/// A byte position that is certainly the start of a character: either an end of the text,
/// or next to an ASCII byte.
pub open spec fn anchored(b: Seq<u8>, i: int) -> bool {
    ||| i == 0
    ||| i == b.len()
    ||| (0 <= i < b.len() && b[i] < 0x80)
    ||| (0 < i <= b.len() && b[i - 1] < 0x80)
}

/// The characters that the bytes `start..end` of `s` encode.
pub open spec fn text_of(s: &str, start: int, end: int) -> Seq<char> {
    decode_utf8(s.spec_bytes().subrange(start, end))
}

/// `start..end` is a range of `s` whose ends are character boundaries.
pub open spec fn valid_range(s: &str, start: int, end: int) -> bool {
    &&& 0 <= start <= end <= s.spec_bytes().len()
    &&& is_char_boundary(s.spec_bytes(), start)
    &&& is_char_boundary(s.spec_bytes(), end)
}

/// In valid UTF-8, the byte after an ASCII byte starts a character.
proof fn lemma_after_ascii(b: Seq<u8>, i: int)
    requires
        valid_utf8(b),
        0 <= i,
        i + 1 < b.len(),
        b[i] < 0x80,
    ensures
        !is_continuation_byte(b[i + 1]),
    decreases b.len(),
{
    let n = length_of_first_scalar(b);
    let rest = pop_first_scalar(b);
    assert(valid_first_scalar(b));
    assert(valid_utf8(rest));
    if i == 0 {
        assert(n == 1);
        assert(rest.len() > 0);
        assert(rest[0] == b[1]);
        assert(valid_first_scalar(rest));
    } else if i < n {
        assert(is_continuation_byte(b[i]));
    } else {
        assert(rest.len() == b.len() - n);
        assert(rest[i - n] == b[i]);
        assert(rest[i - n + 1] == b[i + 1]);
        lemma_after_ascii(rest, i - n);
    }
}

/// Anchored positions of valid UTF-8 are character boundaries.
pub proof fn lemma_anchored_boundary(b: Seq<u8>, i: int)
    requires
        valid_utf8(b),
        0 <= i <= b.len(),
        anchored(b, i),
    ensures
        is_char_boundary(b, i),
{
    is_char_boundary_start_end_of_seq(b);
    if 0 < i < b.len() {
        is_char_boundary_iff_not_is_continuation_byte(b, i);
        if b[i] >= 0x80 {
            lemma_after_ascii(b, i - 1);
        }
    }
}

/// The bytes of a `str` are valid UTF-8.
pub proof fn lemma_str_valid(s: &str)
    ensures
        valid_utf8(s.spec_bytes()),
        decode_utf8(s.spec_bytes()) == s@,
{
    encode_utf8_valid_utf8(s@);
    encode_utf8_decode_utf8(s@);
}

/// A character boundary of a valid sequence stays one in the part of it that starts at
/// another boundary.
pub proof fn lemma_boundary_in_suffix(b: Seq<u8>, start: int, i: int)
    requires
        valid_utf8(b),
        0 <= start <= i <= b.len(),
        is_char_boundary(b, start),
        is_char_boundary(b, i),
    ensures
        valid_utf8(b.subrange(start, b.len() as int)),
        is_char_boundary(b.subrange(start, b.len() as int), i - start),
{
    let rest = b.subrange(start, b.len() as int);
    valid_utf8_split(b, start);
    is_char_boundary_start_end_of_seq(rest);
    if i - start < rest.len() && i - start > 0 {
        is_char_boundary_iff_not_is_continuation_byte(rest, i - start);
        is_char_boundary_iff_not_is_continuation_byte(b, i);
        assert(rest[i - start] == b[i]);
    }
}

/// The part `start..end` of `s`, whose ends must be character boundaries.
pub fn slice(s: &str, start: usize, end: usize) -> (r: &str)
    requires
        valid_range(s, start as int, end as int),
    ensures
        r.spec_bytes() == s.spec_bytes().subrange(start as int, end as int),
        r@ == text_of(s, start as int, end as int),
{
    let ghost b = s.spec_bytes();
    proof {
        lemma_str_valid(s);
        lemma_boundary_in_suffix(b, start as int, end as int);
    }
    let (_, rest) = s.split_at(start);
    proof {
        assert(rest.spec_bytes() =~= b.subrange(start as int, b.len() as int));
    }
    let (r, _) = rest.split_at(end - start);
    proof {
        assert(r.spec_bytes() =~= b.subrange(start as int, end as int));
        lemma_str_valid(r);
    }
    r
}

/// The characters of `s`, in order.
pub fn chars_of(s: &str) -> (v: Vec<char>)
    ensures
        v@ == s@,
{
    broadcast use vstd::string::group_string_axioms;
    let mut v: Vec<char> = Vec::new();
    for c in it: s.chars()
        invariant
            v@.len() == it.index(),
            forall|i: int| 0 <= i < v@.len() ==> v@[i] == it.seq()[i],
            it.seq() == s@,
    {
        v.push(c);
    }
    assert(v@ =~= s@);
    v
}

/// Whether two byte slices hold the same bytes.
pub fn bytes_equal(a: &[u8], b: &[u8]) -> (r: bool)
    ensures
        r == (a@ == b@),
{
    if a.len() != b.len() {
        return false;
    }
    let mut i: usize = 0;
    while i < a.len()
        invariant
            i <= a@.len(),
            a@.len() == b@.len(),
            forall|j: int| 0 <= j < i ==> a@[j] == b@[j],
        decreases a@.len() - i,
    {
        if a[i] != b[i] {
            return false;
        }
        i = i + 1;
    }
    assert(a@ =~= b@);
    true
}

/// Whether two strings hold the same characters.
pub fn str_equal(a: &str, b: &str) -> (r: bool)
    ensures
        r == (a@ == b@),
{
    proof {
        lemma_str_valid(a);
        lemma_str_valid(b);
    }
    bytes_equal(a.as_bytes(), b.as_bytes())
}

/// A string of the characters in `chars`.
pub fn string_of(chars: &[char]) -> (s: String)
    ensures
        s@ == chars@,
{
    let mut s = String::new();
    let mut i: usize = 0;
    while i < chars.len()
        invariant
            i <= chars@.len(),
            s@ == chars@.take(i as int),
        decreases chars@.len() - i,
    {
        s.push(chars[i]);
        proof {
            assert(chars@.take(i + 1) =~= chars@.take(i as int).push(chars@[i as int]));
        }
        i = i + 1;
    }
    assert(chars@.take(i as int) =~= chars@);
    s
}

/// The characters `start..end` of `s`.
pub fn slice_chars(s: &[char], start: usize, end: usize) -> (r: Vec<char>)
    requires
        start <= end <= s@.len(),
    ensures
        r@ == s@.subrange(start as int, end as int),
{
    let mut r = Vec::new();
    let mut i = start;
    while i < end
        invariant
            start <= i <= end,
            end <= s@.len(),
            r@ == s@.subrange(start as int, i as int),
        decreases end - i,
    {
        r.push(s[i]);
        proof {
            assert(s@.subrange(start as int, i + 1) =~= s@.subrange(start as int, i as int).push(s@[i as int]));
        }
        i = i + 1;
    }
    r
}

/// Whether two character slices hold the same characters.
pub fn chars_equal(a: &[char], b: &[char]) -> (r: bool)
    ensures
        r == (a@ == b@),
{
    if a.len() != b.len() {
        return false;
    }
    let mut i: usize = 0;
    while i < a.len()
        invariant
            i <= a@.len(),
            a@.len() == b@.len(),
            forall|j: int| 0 <= j < i ==> a@[j] == b@[j],
        decreases a@.len() - i,
    {
        if a[i] != b[i] {
            return false;
        }
        i = i + 1;
    }
    assert(a@ =~= b@);
    true
}

/// `s` ends with `suffix`.
pub open spec fn ends_with(s: Seq<char>, suffix: Seq<char>) -> bool {
    suffix.len() <= s.len() && s.subrange(s.len() - suffix.len(), s.len() as int) == suffix
}

/// Whether `s` ends with `suffix`.
pub fn str_ends_with(s: &str, suffix: &str) -> (r: bool)
    ensures
        r == ends_with(s@, suffix@),
{
    let a = chars_of(s);
    let b = chars_of(suffix);
    if b.len() > a.len() {
        return false;
    }
    let tail = slice_chars(a.as_slice(), a.len() - b.len(), a.len());
    chars_equal(tail.as_slice(), b.as_slice())
}

/// The decimal digit `d`.
pub open spec fn digit_char(d: nat) -> char {
    (d + 48) as char
}

/// The decimal representation of `n`.
pub open spec fn decimal(n: nat) -> Seq<char>
    decreases n,
{
    if n < 10 {
        seq![digit_char(n)]
    } else {
        decimal(n / 10).push(digit_char(n % 10))
    }
}

/// Appends the decimal representation of `n` to `out`.
pub fn push_decimal(out: &mut String, n: usize)
    ensures
        final(out)@ == old(out)@ + decimal(n as nat),
    decreases n,
{
    if n >= 10 {
        push_decimal(out, n / 10);
    }
    let d = (n % 10) as u8;
    let c = (48u8 + d) as char;
    proof {
        assert(c == digit_char((n % 10) as nat));
    }
    out.push(c);
}

/// Appends the decimal representation of the 64-bit `n` to `out`.
pub fn push_decimal_u64(out: &mut String, n: u64)
    ensures
        final(out)@ == old(out)@ + decimal(n as nat),
    decreases n,
{
    if n >= 10 {
        push_decimal_u64(out, n / 10);
    }
    let d = (n % 10) as u8;
    let c = (48u8 + d) as char;
    proof {
        assert(c == digit_char((n % 10) as nat));
    }
    out.push(c);
}

/// Whether `i` is a character boundary of `s`.
pub fn str_is_char_boundary(s: &str, i: usize) -> (r: bool)
    ensures
        r == is_char_boundary(s.spec_bytes(), i as int),
{
    let b = s.as_bytes();
    proof {
        lemma_str_valid(s);
        is_char_boundary_start_end_of_seq(b@);
    }
    if i == 0 || i == b.len() {
        true
    } else if i > b.len() {
        false
    } else {
        proof {
            is_char_boundary_iff_not_is_continuation_byte(b@, i as int);
        }
        !(0x80 <= b[i] && b[i] <= 0xbf)
    }
}

} // verus!
