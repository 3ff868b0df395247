use vstd::prelude::*;
use vstd::utf8::*;

verus! {

/// Appends one character to a string.
#[verifier::external_body]
pub(crate) fn push_char(s: &mut String, c: char)
    ensures
        final(s)@ == old(s)@.push(c),
{
    s.push(c);
}

/// The characters of a string slice, in order.
pub fn chars_of(s: &str) -> (v: Vec<char>)
    ensures
        v@ == s@,
{
    let mut v: Vec<char> = Vec::new();
    for c in it: s.chars()
        invariant
            v@ == it.seq().take(it.index() as int),
    {
        v.push(c);
    }
    v
}

/// A string made of the given characters.
pub fn string_of(v: &[char]) -> (s: String)
    ensures
        s@ == v@,
{
    let mut s = String::new();
    let mut i: usize = 0;
    while i < v.len()
        invariant
            i <= v.len(),
            s@ == v@.take(i as int),
        decreases v.len() - i,
    {
        push_char(&mut s, v[i]);
        assert(v@.take(i + 1) == v@.take(i as int).push(v@[i as int]));
        i += 1;
    }
    assert(v@.take(v.len() as int) == v@);
    s
}

/// A string made of the characters `v[start..end]`.
pub fn string_of_range(v: &[char], start: usize, end: usize) -> (s: String)
    requires
        start <= end <= v.len(),
    ensures
        s@ == v@.subrange(start as int, end as int),
{
    let mut s = String::new();
    let mut i: usize = start;
    while i < end
        invariant
            start <= i <= end <= v.len(),
            s@ == v@.subrange(start as int, i as int),
        decreases end - i,
    {
        push_char(&mut s, v[i]);
        assert(v@.subrange(start as int, i + 1) == v@.subrange(start as int, i as int).push(
            v@[i as int],
        ));
        i += 1;
    }
    s
}

/// The string `std::string::String::from_utf8` makes of `bytes`, or `None` when they are not
/// valid UTF-8.
#[verifier::external_body]
pub(crate) fn string_from_utf8(bytes: Vec<u8>) -> (s: Option<String>)
    ensures
        s is Some <==> valid_utf8(bytes@),
        s matches Some(t) ==> t@ == decode_utf8(bytes@),
{
    String::from_utf8(bytes).ok()
}

/// Unicode white space, as `char::is_whitespace` decides it.
pub open spec fn is_white_space(c: char) -> bool {
    ||| ('\u{9}' <= c && c <= '\u{d}')
    ||| c == ' '
    ||| c == '\u{85}'
    ||| c == '\u{a0}'
    ||| c == '\u{1680}'
    ||| ('\u{2000}' <= c && c <= '\u{200a}')
    ||| c == '\u{2028}'
    ||| c == '\u{2029}'
    ||| c == '\u{202f}'
    ||| c == '\u{205f}'
    ||| c == '\u{3000}'
}

/// Whether a character is Unicode white space.
pub fn is_whitespace(c: char) -> (b: bool)
    ensures
        b == is_white_space(c),
{
    ('\u{9}' <= c && c <= '\u{d}') || c == ' ' || c == '\u{85}' || c == '\u{a0}' || c
        == '\u{1680}' || ('\u{2000}' <= c && c <= '\u{200a}') || c == '\u{2028}' || c
        == '\u{2029}' || c == '\u{202f}' || c == '\u{205f}' || c == '\u{3000}'
}

/// The sequence without its trailing white space.
pub open spec fn trim_end(s: Seq<char>) -> Seq<char>
    decreases s.len(),
{
    if s.len() > 0 && is_white_space(s.last()) {
        trim_end(s.drop_last())
    } else {
        s
    }
}

/// The sequence without its leading white space.
pub open spec fn trim_start(s: Seq<char>) -> Seq<char>
    decreases s.len(),
{
    if s.len() > 0 && is_white_space(s[0]) {
        trim_start(s.drop_first())
    } else {
        s
    }
}

/// The sequence without white space at either end.
pub open spec fn trim(s: Seq<char>) -> Seq<char> {
    trim_end(trim_start(s))
}

/// Number of characters left once the trailing white space of `v[..end]` is dropped.
pub fn trim_end_len(v: &[char], end: usize) -> (n: usize)
    requires
        end <= v.len(),
    ensures
        n <= end,
        v@.subrange(0, n as int) == trim_end(v@.subrange(0, end as int)),
{
    let mut n = end;
    while n > 0 && is_whitespace(v[n - 1])
        invariant
            n <= end <= v.len(),
            trim_end(v@.subrange(0, n as int)) == trim_end(v@.subrange(0, end as int)),
        decreases n,
    {
        assert(v@.subrange(0, n as int).drop_last() =~= v@.subrange(0, n - 1));
        n -= 1;
    }
    n
}

/// Index of the first character of `v[start..end]` that is not white space (`end` if none).
pub fn trim_start_index(v: &[char], start: usize, end: usize) -> (k: usize)
    requires
        start <= end <= v.len(),
    ensures
        start <= k <= end,
        v@.subrange(k as int, end as int) == trim_start(v@.subrange(start as int, end as int)),
{
    let mut k = start;
    while k < end && is_whitespace(v[k])
        invariant
            start <= k <= end <= v.len(),
            trim_start(v@.subrange(k as int, end as int)) == trim_start(
                v@.subrange(start as int, end as int),
            ),
        decreases end - k,
    {
        assert(v@.subrange(k as int, end as int).drop_first() =~= v@.subrange(k + 1, end as int));
        k += 1;
    }
    k
}

/// A string without its trailing white space.
pub fn trim_end_string(s: &str) -> (r: String)
    ensures
        r@ == trim_end(s@),
{
    let v = chars_of(s);
    let n = trim_end_len(v.as_slice(), v.len());
    assert(v@.subrange(0, v@.len() as int) =~= v@);
    string_of_range(v.as_slice(), 0, n)
}

/// The UTF-8 encoding of a concatenation is the concatenation of the encodings.
pub proof fn lemma_encode_utf8_concat(a: Seq<char>, b: Seq<char>)
    ensures
        encode_utf8(a + b) == encode_utf8(a) + encode_utf8(b),
    decreases a.len(),
{
    if a.len() == 0 {
        assert(a + b =~= b);
    } else {
        assert((a + b).drop_first() =~= a.drop_first() + b);
        lemma_encode_utf8_concat(a.drop_first(), b);
        assert(encode_utf8(a + b) =~= encode_scalar(a[0] as u32) + (encode_utf8(a.drop_first())
            + encode_utf8(b)));
    }
}

/// The UTF-8 encoding of ASCII characters is their codes, one byte each.
pub proof fn lemma_encode_utf8_ascii(a: Seq<char>)
    requires
        forall|i: int| 0 <= i < a.len() ==> (#[trigger] a[i] as u32) < 128,
    ensures
        encode_utf8(a).len() == a.len(),
        forall|i: int| 0 <= i < a.len() ==> (#[trigger] encode_utf8(a)[i]) as u32 == a[i] as u32,
    decreases a.len(),
{
    if a.len() > 0 {
        let c = a[0] as u32;
        assert(c < 128);
        assert(has_width_1_encoding(c));
        assert(leading_byte_width_1(c) as u32 == c) by (bit_vector)
            requires
                c < 128,
        ;
        assert(encode_scalar(c) =~= seq![leading_byte_width_1(c)]);
        let rest = a.drop_first();
        assert forall|i: int| 0 <= i < rest.len() implies (#[trigger] rest[i] as u32) < 128 by {
            assert(rest[i] == a[i + 1]);
        }
        lemma_encode_utf8_ascii(rest);
        assert forall|i: int| 0 <= i < a.len() implies (#[trigger] encode_utf8(a)[i]) as u32
            == a[i] as u32 by {
            if i > 0 {
                assert(encode_utf8(a)[i] == encode_utf8(rest)[i - 1]);
                assert(rest[i - 1] == a[i]);
            }
        }
    }
}

/// Position of the first `c` in `s` at or after `i`.
pub open spec fn find_char_from(s: Seq<char>, c: char, i: int) -> Option<int>
    decreases s.len() - i,
{
    if i < 0 || i >= s.len() {
        None
    } else if s[i] == c {
        Some(i)
    } else {
        find_char_from(s, c, i + 1)
    }
}

/// Position of the first `c` in `s`.
pub open spec fn find_char(s: Seq<char>, c: char) -> Option<int> {
    find_char_from(s, c, 0)
}

/// Whether `pat` occurs in `s` at position `i`.
pub open spec fn occurs_at(s: Seq<char>, pat: Seq<char>, i: int) -> bool {
    0 <= i && i + pat.len() <= s.len() && s.subrange(i, i + pat.len()) == pat
}

/// Position of the first occurrence of `pat` in `s` at or after `i`.
pub open spec fn find_seq_from(s: Seq<char>, pat: Seq<char>, i: int) -> Option<int>
    decreases s.len() - i,
{
    if i < 0 || i + pat.len() > s.len() {
        None
    } else if occurs_at(s, pat, i) {
        Some(i)
    } else if i >= s.len() {
        None
    } else {
        find_seq_from(s, pat, i + 1)
    }
}

/// Position of the first occurrence of `pat` in `s`.
pub open spec fn find_seq(s: Seq<char>, pat: Seq<char>) -> Option<int> {
    find_seq_from(s, pat, 0)
}

pub proof fn lemma_find_char_from_bounds(s: Seq<char>, c: char, i: int)
    ensures
        find_char_from(s, c, i) matches Some(k) ==> i <= k < s.len() && s[k] == c && forall|
            j: int,
        | i <= j < k ==> s[j] != c,
        find_char_from(s, c, i) is None ==> forall|j: int| 0 <= i <= j < s.len() ==> s[j] != c,
    decreases s.len() - i,
{
    if 0 <= i < s.len() && s[i] != c {
        lemma_find_char_from_bounds(s, c, i + 1);
    }
}

pub proof fn lemma_find_seq_from_bounds(s: Seq<char>, pat: Seq<char>, i: int)
    ensures
        find_seq_from(s, pat, i) matches Some(k) ==> i <= k && k + pat.len() <= s.len()
            && occurs_at(s, pat, k),
    decreases s.len() - i,
{
    if 0 <= i && i + pat.len() <= s.len() && !occurs_at(s, pat, i) && i < s.len() {
        lemma_find_seq_from_bounds(s, pat, i + 1);
    }
}

/// Position of the first `c` in `v[start..end]`, counted from the start of `v`.
pub fn find_char_in(v: &[char], c: char, start: usize, end: usize) -> (r: Option<usize>)
    requires
        start <= end <= v.len(),
    ensures
        r matches Some(k) ==> find_char_from(v@.subrange(0, end as int), c, start as int) == Some(
            k as int,
        ),
        r is None ==> find_char_from(v@.subrange(0, end as int), c, start as int) is None,
{
    let ghost s = v@.subrange(0, end as int);
    let mut i = start;
    while i < end
        invariant
            start <= i <= end <= v.len(),
            s == v@.subrange(0, end as int),
            find_char_from(s, c, i as int) == find_char_from(s, c, start as int),
        decreases end - i,
    {
        if v[i] == c {
            return Some(i);
        }
        i += 1;
    }
    None
}

/// Position of the first occurrence of `pat` in `v[start..end]`, counted from the start of `v`.
pub fn find_seq_in(v: &[char], pat: &[char], start: usize, end: usize) -> (r: Option<usize>)
    requires
        start <= end <= v.len(),
    ensures
        r matches Some(k) ==> find_seq_from(v@.subrange(0, end as int), pat@, start as int)
            == Some(k as int),
        r is None ==> find_seq_from(v@.subrange(0, end as int), pat@, start as int) is None,
{
    let ghost s = v@.subrange(0, end as int);
    if pat.len() > end - start {
        return None;
    }
    let mut i = start;
    while pat.len() <= end - i
        invariant
            start <= i <= end,
            end <= v.len(),
            s == v@.subrange(0, end as int),
            find_seq_from(s, pat@, i as int) == find_seq_from(s, pat@, start as int),
        decreases end - i,
    {
        let mut j: usize = 0;
        let mut matched = true;
        while j < pat.len()
            invariant
                i + pat.len() <= end <= v.len(),
                j <= pat.len(),
                s == v@.subrange(0, end as int),
                matched <==> forall|m: int| 0 <= m < j ==> v@[i + m] == pat@[m],
            decreases pat.len() - j,
        {
            if v[i + j] != pat[j] {
                matched = false;
            }
            j += 1;
        }
        if matched {
            assert(s.subrange(i as int, i + pat.len()) =~= pat@);
            return Some(i);
        }
        assert(!occurs_at(s, pat@, i as int)) by {
            let k = choose|m: int| 0 <= m < pat.len() && v@[i + m] != pat@[m];
            assert(s.subrange(i as int, i + pat.len())[k] != pat@[k]);
        }
        i += 1;
    }
    None
}

} // verus!
