use crate::text::{chars_of, find_char, find_char_from, find_char_in, find_seq, find_seq_from, find_seq_in, occurs_at, is_white_space, is_whitespace, lemma_find_char_from_bounds, lemma_find_seq_from_bounds, push_char, string_of, string_of_range};
use vstd::prelude::*;
use vstd::string::StringExecFns;

verus! {

broadcast use vstd::string::group_string_axioms;

// ------------------------------------------------------------------------------------------
// Decimal literals.
// ------------------------------------------------------------------------------------------

/// A decimal digit character.
pub open spec fn is_digit(c: char) -> bool {
    '0' <= c && c <= '9'
}

/// The value of a digit character.
pub open spec fn digit_value(c: char) -> int {
    (c as u32) as int - ('0' as u32) as int
}

/// Every character is a decimal digit.
pub open spec fn all_digits(s: Seq<char>) -> bool {
    forall|i: int| 0 <= i < s.len() ==> is_digit(#[trigger] s[i])
}

/// The number that a run of digits writes.
pub open spec fn decimal_value(s: Seq<char>) -> nat
    decreases s.len(),
{
    if s.len() == 0 {
        0
    } else {
        (decimal_value(s.drop_last()) * 10 + digit_value(s.last())) as nat
    }
}

/// The integer an integer literal writes (an optional sign, then at least one digit; a minus
/// sign only for signed targets), or `None` for anything else.
pub open spec fn int_literal_value(s: Seq<char>, signed: bool) -> Option<int> {
    if s.len() > 0 && (s[0] == '+' || (signed && s[0] == '-')) {
        let d = s.drop_first();
        if d.len() > 0 && all_digits(d) {
            Some(
                if s[0] == '-' {
                    -(decimal_value(d) as int)
                } else {
                    decimal_value(d) as int
                },
            )
        } else {
            None
        }
    } else if s.len() > 0 && all_digits(s) {
        Some(decimal_value(s) as int)
    } else {
        None
    }
}

/// What `str::parse` gives for an integer type whose values run from `min` to `max`.
pub open spec fn parse_int(s: Seq<char>, min: int, max: int) -> Option<int> {
    match int_literal_value(s, min < 0) {
        Some(v) => if min <= v <= max {
            Some(v)
        } else {
            None
        },
        None => None,
    }
}

/// The digit character of `d` (0 to 9).
pub open spec fn digit_char(d: int) -> char {
    if d == 0 {
        '0'
    } else if d == 1 {
        '1'
    } else if d == 2 {
        '2'
    } else if d == 3 {
        '3'
    } else if d == 4 {
        '4'
    } else if d == 5 {
        '5'
    } else if d == 6 {
        '6'
    } else if d == 7 {
        '7'
    } else if d == 8 {
        '8'
    } else {
        '9'
    }
}

/// The decimal digits of a natural number, without leading zeros.
pub open spec fn nat_digits(n: nat) -> Seq<char>
    decreases n,
{
    if n < 10 {
        seq![digit_char(n as int)]
    } else {
        nat_digits(n / 10).push(digit_char((n % 10) as int))
    }
}

/// The decimal text of an integer, as `to_string` writes it.
pub open spec fn int_text(v: int) -> Seq<char> {
    if v < 0 {
        seq!['-'] + nat_digits((-v) as nat)
    } else {
        nat_digits(v as nat)
    }
}

proof fn lemma_digit_char(d: int)
    requires
        0 <= d < 10,
    ensures
        is_digit(digit_char(d)),
        digit_value(digit_char(d)) == d,
{
}

proof fn lemma_nat_digits(n: nat)
    ensures
        nat_digits(n).len() > 0,
        all_digits(nat_digits(n)),
        decimal_value(nat_digits(n)) == n,
    decreases n,
{
    if n < 10 {
        lemma_digit_char(n as int);
        assert(nat_digits(n).drop_last() =~= Seq::<char>::empty());
        assert(decimal_value(Seq::<char>::empty()) == 0);
        assert(decimal_value(nat_digits(n)) == decimal_value(nat_digits(n).drop_last()) * 10
            + digit_value(nat_digits(n).last()));
    } else {
        lemma_nat_digits(n / 10);
        lemma_digit_char((n % 10) as int);
        assert(nat_digits(n).drop_last() =~= nat_digits(n / 10));
        assert((n / 10) * 10 + n % 10 == n) by (nonlinear_arith);
        assert(nat_digits(n).last() == digit_char((n % 10) as int));
        assert(decimal_value(nat_digits(n)) == decimal_value(nat_digits(n).drop_last()) * 10
            + digit_value(nat_digits(n).last()));
    }
}

/// Parsing the text of an integer gives the integer back.
pub proof fn lemma_int_text_parses(v: int, min: int, max: int)
    requires
        min <= v <= max,
    ensures
        parse_int(int_text(v), min, max) == Some(v),
{
    if v < 0 {
        let s = int_text(v);
        lemma_nat_digits((-v) as nat);
        assert(s.drop_first() =~= nat_digits((-v) as nat));
    } else {
        lemma_nat_digits(v as nat);
        let s = nat_digits(v as nat);
        lemma_digit_char(0);
        assert(is_digit(s[0]));
    }
}

proof fn lemma_decimal_value_prefix(s: Seq<char>, i: int, j: int)
    requires
        0 <= i <= j <= s.len(),
        all_digits(s),
    ensures
        decimal_value(s.take(i)) <= decimal_value(s.take(j)),
    decreases j - i,
{
    if i < j {
        lemma_decimal_value_prefix(s, i, j - 1);
        assert(s.take(j).drop_last() =~= s.take(j - 1));
        assert(is_digit(s[j - 1]));
        assert(s.take(j).last() == s[j - 1]);
    }
}

/// The digit character for `d`.
fn digit_to_char(d: u128) -> (c: char)
    requires
        d < 10,
    ensures
        c == digit_char(d as int),
{
    if d == 0 {
        '0'
    } else if d == 1 {
        '1'
    } else if d == 2 {
        '2'
    } else if d == 3 {
        '3'
    } else if d == 4 {
        '4'
    } else if d == 5 {
        '5'
    } else if d == 6 {
        '6'
    } else if d == 7 {
        '7'
    } else if d == 8 {
        '8'
    } else {
        '9'
    }
}

/// The decimal digits of `n`.
fn write_nat(n: u128) -> (s: Vec<char>)
    ensures
        s@ == nat_digits(n as nat),
    decreases n,
{
    if n < 10 {
        let mut s = Vec::new();
        s.push(digit_to_char(n));
        assert(s@ =~= nat_digits(n as nat));
        s
    } else {
        let mut s = write_nat(n / 10);
        s.push(digit_to_char(n % 10));
        s
    }
}

/// The decimal text of `v`.
pub fn write_int(v: i128) -> (s: Vec<char>)
    ensures
        s@ == int_text(v as int),
{
    if v < 0 {
        let magnitude: u128 = if v == i128::MIN {
            170141183460469231731687303715884105728u128
        } else {
            (-v) as u128
        };
        let digits = write_nat(magnitude);
        let mut s = Vec::new();
        s.push('-');
        let mut i: usize = 0;
        while i < digits.len()
            invariant
                i <= digits.len(),
                s@ =~= seq!['-'] + digits@.take(i as int),
            decreases digits.len() - i,
        {
            s.push(digits[i]);
            i += 1;
        }
        assert(digits@.take(digits.len() as int) =~= digits@);
        s
    } else {
        write_nat(v as u128)
    }
}

/// The decimal text of `v`.
pub fn write_u128(v: u128) -> (s: Vec<char>)
    ensures
        s@ == int_text(v as int),
{
    write_nat(v)
}

/// Whether a character is a decimal digit.
pub fn is_digit_char(c: char) -> (b: bool)
    ensures
        b == is_digit(c),
{
    '0' <= c && c <= '9'
}

/// The value of a digit character.
fn digit_of(c: char) -> (d: u128)
    requires
        is_digit(c),
    ensures
        d as int == digit_value(c),
        d < 10,
{
    (c as u32 - '0' as u32) as u128
}

/// The number the digits of `v` from `start` on write, when they are all digits and the
/// number fits 128 bits.
fn digits_value(v: &[char], start: usize) -> (r: Option<u128>)
    requires
        start < v.len(),
    ensures
        ({
            let d = v@.subrange(start as int, v.len() as int);
            match r {
                Some(m) => all_digits(d) && m as int == decimal_value(d),
                None => !all_digits(d) || decimal_value(d) > u128::MAX,
            }
        }),
{
    let ghost d = v@.subrange(start as int, v.len() as int);
    let mut magnitude: u128 = 0;
    let mut i = start;
    while i < v.len()
        invariant
            start <= i <= v.len(),
            start < v.len(),
            d == v@.subrange(start as int, v.len() as int),
            all_digits(d.take(i - start)),
            magnitude as int == decimal_value(d.take(i - start)),
        decreases v.len() - i,
    {
        if !is_digit_char(v[i]) {
            assert(!all_digits(d)) by {
                assert(d[i - start] == v@[i as int]);
            }
            return None;
        }
        let digit = digit_of(v[i]);
        assert(d.take(i - start + 1).drop_last() =~= d.take(i - start));
        assert(d.take(i - start + 1).last() == v@[i as int]);
        let m = match magnitude.checked_mul(10) {
            None => {
                proof {
                    if all_digits(d) {
                        lemma_decimal_value_prefix(d, i - start + 1, d.len() as int);
                        assert(d.take(d.len() as int) =~= d);
                    }
                }
                return None;
            },
            Some(m) => m,
        };
        match m.checked_add(digit) {
            None => {
                proof {
                    if all_digits(d) {
                        lemma_decimal_value_prefix(d, i - start + 1, d.len() as int);
                        assert(d.take(d.len() as int) =~= d);
                    }
                }
                return None;
            },
            Some(m2) => {
                magnitude = m2;
            },
        }
        assert(all_digits(d.take(i - start + 1))) by {
            assert forall|k: int| 0 <= k < i - start + 1 implies is_digit(
                #[trigger] d.take(i - start + 1)[k],
            ) by {
                if k < i - start {
                    assert(d.take(i - start + 1)[k] == d.take(i - start)[k]);
                }
            }
        }
        i += 1;
    }
    assert(d.take(v.len() - start) =~= d);
    Some(magnitude)
}

/// What `str::parse` gives for an integer type whose values run from `min` to `max`.
pub fn parse_int_in(v: &[char], min: i128, max: i128) -> (r: Option<i128>)
    requires
        min <= 0 <= max,
    ensures
        r matches Some(x) ==> parse_int(v@, min as int, max as int) == Some(x as int),
        r is None ==> parse_int(v@, min as int, max as int) is None,
{
    let signed = min < 0;
    if v.len() == 0 {
        return None;
    }
    let negative = signed && v[0] == '-';
    let start: usize = if v[0] == '+' || negative {
        1
    } else {
        0
    };
    if start == v.len() {
        return None;
    }
    let ghost d = v@.subrange(start as int, v.len() as int);
    assert(start == 1 ==> v@.drop_first() =~= d);
    assert(start == 0 ==> v@ =~= d);
    let magnitude = match digits_value(v, start) {
        None => {
            return None;
        },
        Some(m) => m,
    };
    if negative {
        // the value is -magnitude
        let bound: u128 = ((-(min + 1)) as u128) + 1;
        if magnitude <= bound {
            let x: i128 = if magnitude == 0 {
                0
            } else {
                -(((magnitude - 1) as i128)) - 1
            };
            Some(x)
        } else {
            None
        }
    } else {
        if magnitude <= max as u128 {
            Some(magnitude as i128)
        } else {
            None
        }
    }
}

/// What `str::parse::<u128>` gives.
pub fn parse_u128(v: &[char]) -> (r: Option<u128>)
    ensures
        match r {
            Some(x) => parse_int(v@, 0, u128::MAX as int) == Some(x as int),
            None => parse_int(v@, 0, u128::MAX as int) is None,
        },
{
    if v.len() == 0 {
        return None;
    }
    let start: usize = if v[0] == '+' {
        1
    } else {
        0
    };
    if start == v.len() {
        return None;
    }
    let ghost d = v@.subrange(start as int, v.len() as int);
    assert(start == 1 ==> v@.drop_first() =~= d);
    assert(start == 0 ==> v@ =~= d);
    digits_value(v, start)
}

/// Number of digits in `s` from position `i` on, up to the first non-digit.
pub open spec fn digit_run(s: Seq<char>, i: int) -> nat
    decreases s.len() - i,
{
    if 0 <= i < s.len() && is_digit(s[i]) {
        1 + digit_run(s, i + 1)
    } else {
        0
    }
}

/// `c` is the lower-case letter `w`, in either case.
pub open spec fn lower_eq(c: char, w: char) -> bool {
    c == w || ('a' <= w && w <= 'z' && (c as u32) + 32 == w as u32)
}

/// `inf`, `infinity` or `nan`, in any case.
pub open spec fn is_special_float(t: Seq<char>) -> bool {
    ||| (t.len() == 3 && lower_eq(t[0], 'i') && lower_eq(t[1], 'n') && lower_eq(t[2], 'f'))
    ||| (t.len() == 8 && lower_eq(t[0], 'i') && lower_eq(t[1], 'n') && lower_eq(t[2], 'f') && lower_eq(t[3], 'i') && lower_eq(t[4], 'n') && lower_eq(t[5], 'i') && lower_eq(t[6], 't') && lower_eq(t[7], 'y'))
    ||| (t.len() == 3 && lower_eq(t[0], 'n') && lower_eq(t[1], 'a') && lower_eq(t[2], 'n'))
}

/// Digits with at most one point and at least one digit, then optionally `e` or `E`, an
/// optional sign and at least one digit.
pub open spec fn is_float_number(t: Seq<char>) -> bool {
    let a: int = digit_run(t, 0) as int;
    let has_point = a < t.len() && t[a as int] == '.';
    let b: int = if has_point {
        digit_run(t, a + 1int) as int
    } else {
        0
    };
    let j: int = if has_point {
        a + 1 + b
    } else {
        a as int
    };
    &&& a + b > 0
    &&& (j == t.len() || (j < t.len() && (t[j] == 'e' || t[j] == 'E') && ({
        let k = if j + 1 < t.len() && (t[j + 1] == '+' || t[j + 1] == '-') {
            j + 2
        } else {
            j + 1
        };
        let c = digit_run(t, k);
        c > 0 && k + c == t.len()
    })))
}

/// Whether `str::parse` accepts the text as a floating-point number.
pub open spec fn is_float_literal(s: Seq<char>) -> bool {
    let t = if s.len() > 0 && (s[0] == '+' || s[0] == '-') {
        s.drop_first()
    } else {
        s
    };
    is_special_float(t) || is_float_number(t)
}

/// Number of digits in `v` from `i` on.
fn count_digits(v: &[char], i: usize) -> (n: usize)
    requires
        i <= v.len(),
    ensures
        n as int == digit_run(v@, i as int),
        i + n <= v.len(),
{
    let mut k = i;
    while k < v.len() && is_digit_char(v[k])
        invariant
            i <= k <= v.len(),
            digit_run(v@, i as int) == (k - i) + digit_run(v@, k as int),
        decreases v.len() - k,
    {
        k += 1;
    }
    k - i
}

fn lower_eq_char(c: char, w: char) -> (b: bool)
    ensures
        b == lower_eq(c, w),
{
    c == w || ('a' <= w && w <= 'z' && (c as u32) + 32 == w as u32)
}

fn matches_lower(v: &[char], start: usize, word: &str) -> (b: bool)
    requires
        start <= v.len(),
    ensures
        b == (v.len() - start == word@.len() && forall|i: int|
            0 <= i < word@.len() ==> lower_eq(#[trigger] v@[start + i], word@[i])),
{
    let w = chars_of(word);
    if v.len() - start != w.len() {
        return false;
    }
    let mut i: usize = 0;
    while i < w.len()
        invariant
            v.len() - start == w.len(),
            w@ == word@,
            i <= w.len(),
            forall|k: int| 0 <= k < i ==> lower_eq(#[trigger] v@[start + k], w@[k]),
        decreases w.len() - i,
    {
        if !lower_eq_char(v[start + i], w[i]) {
            return false;
        }
        i += 1;
    }
    true
}

fn is_special_text(t: &[char]) -> (b: bool)
    ensures
        b == is_special_float(t@),
{
    proof {
        reveal_strlit("inf");
        reveal_strlit("infinity");
        reveal_strlit("nan");
    }
    let w1 = matches_lower(t, 0, "inf");
    let w2 = matches_lower(t, 0, "infinity");
    let w3 = matches_lower(t, 0, "nan");
    proof {
        assert(w1 == (t@.len() == 3 && lower_eq(t@[0], 'i') && lower_eq(t@[1], 'n') && lower_eq(
            t@[2],
            'f',
        ))) by {
            if t@.len() == 3 {
                assert(t@[0int + 0] == t@[0]);
                assert(t@[0int + 1] == t@[1]);
                assert(t@[0int + 2] == t@[2]);
            }
        }
        assert(w3 == (t@.len() == 3 && lower_eq(t@[0], 'n') && lower_eq(t@[1], 'a') && lower_eq(
            t@[2],
            'n',
        ))) by {
            if t@.len() == 3 {
                assert(t@[0int + 0] == t@[0]);
                assert(t@[0int + 1] == t@[1]);
                assert(t@[0int + 2] == t@[2]);
            }
        }
        assert(w2 == (t@.len() == 8 && lower_eq(t@[0], 'i') && lower_eq(t@[1], 'n') && lower_eq(
            t@[2],
            'f',
        ) && lower_eq(t@[3], 'i') && lower_eq(t@[4], 'n') && lower_eq(t@[5], 'i') && lower_eq(
            t@[6],
            't',
        ) && lower_eq(t@[7], 'y'))) by {
            if t@.len() == 8 {
                assert(t@[0int + 0] == t@[0]);
                assert(t@[0int + 1] == t@[1]);
                assert(t@[0int + 2] == t@[2]);
                assert(t@[0int + 3] == t@[3]);
                assert(t@[0int + 4] == t@[4]);
                assert(t@[0int + 5] == t@[5]);
                assert(t@[0int + 6] == t@[6]);
                assert(t@[0int + 7] == t@[7]);
            }
        }
    }
    w1 || w2 || w3
}

fn is_number_text(t: &[char]) -> (b: bool)
    ensures
        b == is_float_number(t@),
{
    let n = t.len();
    let a = count_digits(t, 0);
    let has_point = a < n && t[a] == '.';
    let b = if has_point {
        count_digits(t, a + 1)
    } else {
        0
    };
    let j = if has_point {
        a + 1 + b
    } else {
        a
    };
    if a + b == 0 {
        return false;
    }
    if j == n {
        return true;
    }
    if !(t[j] == 'e' || t[j] == 'E') {
        return false;
    }
    let k = if j + 1 < n && (t[j + 1] == '+' || t[j + 1] == '-') {
        j + 2
    } else {
        j + 1
    };
    let c = count_digits(t, k);
    c > 0 && k + c == n
}

/// Copies `v[start..end]`.
pub fn copy_range(v: &[char], start: usize, end: usize) -> (r: Vec<char>)
    requires
        start <= end <= v.len(),
    ensures
        r@ == v@.subrange(start as int, end as int),
{
    let mut r: Vec<char> = Vec::new();
    let mut i = start;
    while i < end
        invariant
            start <= i <= end <= v.len(),
            r@ =~= v@.subrange(start as int, i as int),
        decreases end - i,
    {
        r.push(v[i]);
        i += 1;
    }
    r
}

/// Whether `str::parse` accepts the text as a floating-point number.
pub fn is_float_text(v: &[char]) -> (b: bool)
    ensures
        b == is_float_literal(v@),
{
    let start: usize = if v.len() > 0 && (v[0] == '+' || v[0] == '-') {
        1
    } else {
        0
    };
    let t = copy_range(v, start, v.len());
    assert(start == 1 ==> t@ =~= v@.drop_first());
    assert(start == 0 ==> t@ =~= v@);
    is_special_text(t.as_slice()) || is_number_text(t.as_slice())
}

// ------------------------------------------------------------------------------------------
// Characters and strings.
// ------------------------------------------------------------------------------------------

/// Whether two character sequences are equal.
pub fn chars_eq(a: &[char], b: &[char]) -> (r: bool)
    ensures
        r == (a@ == b@),
{
    if a.len() != b.len() {
        return false;
    }
    let mut i: usize = 0;
    while i < a.len()
        invariant
            a.len() == b.len(),
            i <= a.len(),
            forall|k: int| 0 <= k < i ==> a@[k] == b@[k],
        decreases a.len() - i,
    {
        if a[i] != b[i] {
            return false;
        }
        i += 1;
    }
    assert(a@ =~= b@);
    true
}

/// Whether a character sequence spells a string literal.
pub fn chars_eq_str(a: &[char], lit: &str) -> (r: bool)
    ensures
        r == (a@ == lit@),
{
    let b = chars_of(lit);
    chars_eq(a, b.as_slice())
}

/// Lexicographic order of character sequences, by character code.
pub open spec fn seq_lt(a: Seq<char>, b: Seq<char>) -> bool
    decreases a.len(),
{
    if a.len() == 0 {
        b.len() > 0
    } else if b.len() == 0 {
        false
    } else if a[0] != b[0] {
        a[0] < b[0]
    } else {
        seq_lt(a.drop_first(), b.drop_first())
    }
}

pub proof fn lemma_seq_lt_irreflexive(a: Seq<char>)
    ensures
        !seq_lt(a, a),
    decreases a.len(),
{
    if a.len() > 0 {
        lemma_seq_lt_irreflexive(a.drop_first());
    }
}

pub proof fn lemma_seq_lt_transitive(a: Seq<char>, b: Seq<char>, c: Seq<char>)
    requires
        seq_lt(a, b),
        seq_lt(b, c),
    ensures
        seq_lt(a, c),
    decreases a.len(),
{
    if a.len() > 0 && b.len() > 0 && c.len() > 0 && a[0] == b[0] && b[0] == c[0] {
        lemma_seq_lt_transitive(a.drop_first(), b.drop_first(), c.drop_first());
    }
}

pub proof fn lemma_seq_lt_total(a: Seq<char>, b: Seq<char>)
    requires
        a != b,
    ensures
        seq_lt(a, b) || seq_lt(b, a),
    decreases a.len(),
{
    if a.len() > 0 && b.len() > 0 && a[0] == b[0] {
        if a.drop_first() == b.drop_first() {
            assert(a =~= seq![a[0]] + a.drop_first());
            assert(b =~= seq![b[0]] + b.drop_first());
        }
        lemma_seq_lt_total(a.drop_first(), b.drop_first());
    } else if a.len() == 0 && b.len() == 0 {
        assert(a =~= b);
    }
}

/// Whether `a` comes before `b` in lexicographic order.
pub fn chars_lt(a: &[char], b: &[char]) -> (r: bool)
    ensures
        r == seq_lt(a@, b@),
{
    let mut i: usize = 0;
    assert(a@.subrange(0, a.len() as int) =~= a@);
    assert(b@.subrange(0, b.len() as int) =~= b@);
    while i < a.len() && i < b.len() && a[i] == b[i]
        invariant
            i <= a.len(),
            i <= b.len(),
            seq_lt(a@.subrange(i as int, a.len() as int), b@.subrange(i as int, b.len() as int))
                == seq_lt(a@, b@),
        decreases a.len() - i,
    {
        assert(a@.subrange(i as int, a.len() as int).drop_first() =~= a@.subrange(
            i + 1,
            a.len() as int,
        ));
        assert(b@.subrange(i as int, b.len() as int).drop_first() =~= b@.subrange(
            i + 1,
            b.len() as int,
        ));
        i += 1;
    }
    if i == a.len() {
        i < b.len()
    } else if i == b.len() {
        false
    } else {
        a[i] < b[i]
    }
}

/// The characters of `s` other than double quotes.
pub open spec fn without_quotes(s: Seq<char>) -> Seq<char>
    decreases s.len(),
{
    if s.len() == 0 {
        s
    } else if s.last() == '"' {
        without_quotes(s.drop_last())
    } else {
        without_quotes(s.drop_last()).push(s.last())
    }
}

/// The string without its double quotes.
pub fn remove_quotes(s: &String) -> (r: String)
    ensures
        r@ == without_quotes(s@),
{
    let v = chars_of(s.as_str());
    let mut r = String::new();
    let mut i: usize = 0;
    while i < v.len()
        invariant
            i <= v.len(),
            v@ == s@,
            r@ == without_quotes(v@.take(i as int)),
        decreases v.len() - i,
    {
        assert(v@.take(i + 1).drop_last() =~= v@.take(i as int));
        if v[i] != '"' {
            push_char(&mut r, v[i]);
        }
        i += 1;
    }
    assert(v@.take(v.len() as int) =~= v@);
    r
}

// ------------------------------------------------------------------------------------------
// Types of data.
// ------------------------------------------------------------------------------------------

/// The kinds of JSON value.
#[derive(Debug, PartialEq, Eq, PartialOrd, Ord, Hash, Clone, Copy, Structural)]
pub enum JsonType {
    String,
    Integer,
    Boolean,
    Float,
    Array,
    Object,
    Null,
}

/// The error of every parse in this module.
#[derive(Debug, PartialEq, Eq, PartialOrd, Ord, Hash, Clone, Copy, Structural)]
pub enum JsonError {
    ParseError,
}

/// The name a type is written with in validation documents.
pub open spec fn json_type_name(t: JsonType) -> Seq<char> {
    match t {
        JsonType::String => "string"@,
        JsonType::Integer => "int"@,
        JsonType::Boolean => "bool"@,
        JsonType::Float => "float"@,
        JsonType::Array => "array"@,
        JsonType::Object => "object"@,
        JsonType::Null => "null"@,
    }
}

/// The type a name stands for in validation documents.
pub open spec fn type_of_name(s: Seq<char>) -> Result<JsonType, JsonError> {
    if s == "array"@ {
        Ok(JsonType::Array)
    } else if s == "object"@ {
        Ok(JsonType::Object)
    } else if s == "null"@ {
        Ok(JsonType::Null)
    } else if s == "float"@ {
        Ok(JsonType::Float)
    } else if s == "bool"@ {
        Ok(JsonType::Boolean)
    } else if s == "string"@ {
        Ok(JsonType::String)
    } else if s == "int"@ {
        Ok(JsonType::Integer)
    } else {
        Err(JsonError::ParseError)
    }
}

/// The type the text of a value shows: `null` and `undefined`, `true` and `false`, integers
/// that fit 128 bits, floating-point numbers, then by the first character `[`, `"` or `{`.
pub open spec fn type_of_text(s: Seq<char>) -> Result<JsonType, JsonError> {
    if s == "null"@ || s == "undefined"@ {
        Ok(JsonType::Null)
    } else if s == "true"@ || s == "false"@ {
        Ok(JsonType::Boolean)
    } else if parse_int(s, i128::MIN as int, i128::MAX as int) is Some {
        Ok(JsonType::Integer)
    } else if is_float_literal(s) {
        Ok(JsonType::Float)
    } else if s.len() == 0 {
        Err(JsonError::ParseError)
    } else if s[0] == '[' {
        Ok(JsonType::Array)
    } else if s[0] == '"' {
        Ok(JsonType::String)
    } else if s[0] == '{' {
        Ok(JsonType::Object)
    } else {
        Err(JsonError::ParseError)
    }
}

impl JsonType {
    /// The type that the text of a value shows.
    pub fn get_type(data: &String) -> (r: Result<JsonType, JsonError>)
        ensures
            r == type_of_text(data@),
    {
        let v = chars_of(data.as_str());
        Self::type_of_chars(v.as_slice())
    }

    /// The type that the text of a value shows.
    pub fn type_of_chars(v: &[char]) -> (r: Result<JsonType, JsonError>)
        ensures
            r == type_of_text(v@),
    {
        if chars_eq_str(v, "null") || chars_eq_str(v, "undefined") {
            return Ok(JsonType::Null);
        }
        if chars_eq_str(v, "true") || chars_eq_str(v, "false") {
            return Ok(JsonType::Boolean);
        }
        if parse_int_in(v, i128::MIN, i128::MAX).is_some() {
            return Ok(JsonType::Integer);
        }
        if is_float_text(v) {
            return Ok(JsonType::Float);
        }
        if v.len() == 0 {
            Err(JsonError::ParseError)
        } else if v[0] == '[' {
            Ok(JsonType::Array)
        } else if v[0] == '"' {
            Ok(JsonType::String)
        } else if v[0] == '{' {
            Ok(JsonType::Object)
        } else {
            Err(JsonError::ParseError)
        }
    }

    /// The name the type is written with in validation documents.
    pub fn to_string(&self) -> (s: String)
        ensures
            s@ == json_type_name(*self),
    {
        let s = match self {
            JsonType::String => "string",
            JsonType::Integer => "int",
            JsonType::Boolean => "bool",
            JsonType::Float => "float",
            JsonType::Array => "array",
            JsonType::Object => "object",
            JsonType::Null => "null",
        };
        s.to_owned()
    }

    /// The type a name stands for in validation documents (the name is the text of a
    /// string value, quotes removed).
    pub fn from_name(name: &String) -> (r: Result<JsonType, JsonError>)
        ensures
            r == type_of_name(name@),
    {
        let v = chars_of(name.as_str());
        let v = v.as_slice();
        if chars_eq_str(v, "array") {
            Ok(JsonType::Array)
        } else if chars_eq_str(v, "object") {
            Ok(JsonType::Object)
        } else if chars_eq_str(v, "null") {
            Ok(JsonType::Null)
        } else if chars_eq_str(v, "float") {
            Ok(JsonType::Float)
        } else if chars_eq_str(v, "bool") {
            Ok(JsonType::Boolean)
        } else if chars_eq_str(v, "string") {
            Ok(JsonType::String)
        } else if chars_eq_str(v, "int") {
            Ok(JsonType::Integer)
        } else {
            Err(JsonError::ParseError)
        }
    }

    /// Whether two types are the same.
    pub fn same(&self, other: &JsonType) -> (b: bool)
        ensures
            b == (*self == *other),
    {
        *self == *other
    }
}

// ------------------------------------------------------------------------------------------
// Values.
// ------------------------------------------------------------------------------------------

/// A JSON value: its text, as it stands in a document, and its type.
#[derive(Debug, PartialEq, Eq, PartialOrd, Ord, Hash, Clone)]
pub struct JsonData {
    data: String,
    data_type: JsonType,
}

impl View for JsonData {
    type V = (Seq<char>, JsonType);

    closed spec fn view(&self) -> (Seq<char>, JsonType) {
        (self.data@, self.data_type)
    }
}

/// The text `true` or `false`.
pub open spec fn bool_text(b: bool) -> Seq<char> {
    if b {
        "true"@
    } else {
        "false"@
    }
}

/// The text of a string value: the characters between double quotes.
pub open spec fn quoted(s: Seq<char>) -> Seq<char> {
    seq!['"'] + s + seq!['"']
}

/// What `as_int` gives: the integer an integer value writes, if it fits 32 bits.
pub open spec fn int_of(d: (Seq<char>, JsonType)) -> Result<int, JsonError> {
    if d.1 != JsonType::Integer {
        Err(JsonError::ParseError)
    } else {
        match parse_int(d.0, i32::MIN as int, i32::MAX as int) {
            Some(v) => Ok(v),
            None => Err(JsonError::ParseError),
        }
    }
}

/// What `as_bool` gives: whether a boolean value's text is `true`.
pub open spec fn bool_of(d: (Seq<char>, JsonType)) -> Result<bool, JsonError> {
    if d.1 != JsonType::Boolean {
        Err(JsonError::ParseError)
    } else {
        Ok(d.0 == "true"@)
    }
}

/// What `as_type` gives: the type a string value names.
pub open spec fn type_named_by(d: (Seq<char>, JsonType)) -> Result<JsonType, JsonError> {
    if d.1 != JsonType::String {
        Err(JsonError::ParseError)
    } else {
        type_of_name(without_quotes(d.0))
    }
}

impl JsonData {
    /// A value with the given text and type.
    pub fn new(data: String, data_type: JsonType) -> (r: JsonData)
        ensures
            r@ == (data@, data_type),
    {
        JsonData { data, data_type }
    }

    /// A value whose type the text shows; fails when it shows none.
    pub fn infer_from_string(data: String) -> (r: Result<Self, JsonError>)
        ensures
            match type_of_text(data@) {
                Ok(t) => r matches Ok(d) && d@ == (data@, t),
                Err(e) => r == Err::<JsonData, JsonError>(e),
            },
    {
        let data_type = JsonType::get_type(&data)?;
        Ok(Self { data, data_type })
    }

    /// A value of the text `v`, whose type it shows.
    pub fn infer_from_chars(v: &[char]) -> (r: Result<Self, JsonError>)
        ensures
            match type_of_text(v@) {
                Ok(t) => r matches Ok(d) && d@ == (v@, t),
                Err(e) => r == Err::<JsonData, JsonError>(e),
            },
    {
        let data_type = JsonType::type_of_chars(v)?;
        Ok(Self { data: string_of(v), data_type })
    }

    /// The same value.
    pub fn copy(&self) -> (r: JsonData)
        ensures
            r@ == self@,
    {
        JsonData { data: self.data.clone(), data_type: self.data_type }
    }

    /// The text without its double quotes.
    pub fn as_string(&self) -> (s: String)
        ensures
            s@ == without_quotes(self@.0),
    {
        remove_quotes(&self.data)
    }

    /// The integer of an integer value that fits 32 bits.
    pub fn as_int(&self) -> (r: Result<i32, JsonError>)
        ensures
            match int_of(self@) {
                Ok(v) => r == Ok::<i32, JsonError>(v as i32),
                Err(e) => r == Err::<i32, JsonError>(e),
            },
    {
        if self.data_type != JsonType::Integer {
            return Err(JsonError::ParseError);
        }
        let v = chars_of(self.data.as_str());
        match parse_int_in(v.as_slice(), i32::MIN as i128, i32::MAX as i128) {
            Some(x) => Ok(x as i32),
            None => Err(JsonError::ParseError),
        }
    }

    /// The byte of an integer value from 0 to 255.
    pub fn as_u8(&self) -> (r: Result<u8, JsonError>)
        ensures
            if self@.1 == JsonType::Integer && parse_int(self@.0, 0, 255) is Some {
                r == Ok::<u8, JsonError>(parse_int(self@.0, 0, 255)->0 as u8)
            } else {
                r == Err::<u8, JsonError>(JsonError::ParseError)
            },
    {
        if self.data_type != JsonType::Integer {
            return Err(JsonError::ParseError);
        }
        let v = chars_of(self.data.as_str());
        match parse_int_in(v.as_slice(), 0, 255) {
            Some(x) => Ok(x as u8),
            None => Err(JsonError::ParseError),
        }
    }

    /// Whether a boolean value is `true`.
    pub fn as_bool(&self) -> (r: Result<bool, JsonError>)
        ensures
            r == bool_of(self@),
    {
        if self.data_type != JsonType::Boolean {
            return Err(JsonError::ParseError);
        }
        let v = chars_of(self.data.as_str());
        Ok(chars_eq_str(v.as_slice(), "true"))
    }

    /// The type a string value names (`"int"`, `"string"`, ...).
    pub fn as_type(&self) -> (r: Result<JsonType, JsonError>)
        ensures
            r == type_named_by(self@),
    {
        if self.data_type != JsonType::String {
            return Err(JsonError::ParseError);
        }
        JsonType::from_name(&self.as_string())
    }

    /// Whether the value is null.
    pub fn is_null(&self) -> (b: bool)
        ensures
            b == (self@.1 == JsonType::Null),
    {
        self.data_type == JsonType::Null
    }

    /// A string value: `v` between double quotes.
    pub fn from_string(v: String) -> (r: JsonData)
        ensures
            r@ == (quoted(v@), JsonType::String),
    {
        let mut data = String::new();
        push_char(&mut data, '"');
        data.append(v.as_str());
        push_char(&mut data, '"');
        assert(data@ =~= quoted(v@));
        JsonData { data, data_type: JsonType::String }
    }

    /// An integer value.
    pub fn from_int(v: i32) -> (r: JsonData)
        ensures
            r@ == (int_text(v as int), JsonType::Integer),
    {
        let digits = write_int(v as i128);
        JsonData { data: string_of(digits.as_slice()), data_type: JsonType::Integer }
    }

    /// An integer value.
    pub fn from_u128(v: u128) -> (r: JsonData)
        ensures
            r@ == (int_text(v as int), JsonType::Integer),
    {
        let digits = write_u128(v);
        JsonData { data: string_of(digits.as_slice()), data_type: JsonType::Integer }
    }

    /// A boolean value.
    pub fn from_boolean(v: bool) -> (r: JsonData)
        ensures
            r@ == (bool_text(v), JsonType::Boolean),
    {
        let data = if v {
            "true".to_owned()
        } else {
            "false".to_owned()
        };
        JsonData { data, data_type: JsonType::Boolean }
    }

    /// The null value.
    pub fn new_null() -> (r: JsonData)
        ensures
            r@ == ("null"@, JsonType::Null),
    {
        JsonData { data: "null".to_owned(), data_type: JsonType::Null }
    }

    /// The type of the value.
    pub fn get_type(&self) -> (t: JsonType)
        ensures
            t == self@.1,
    {
        self.data_type
    }

    /// The text of the value.
    pub fn get_data(&self) -> (s: &String)
        ensures
            s@ == self@.0,
    {
        &self.data
    }
}

/// An integer value gives back the integer it was made from.
pub proof fn lemma_int_roundtrip(v: i32)
    ensures
        int_of((int_text(v as int), JsonType::Integer)) == Ok::<int, JsonError>(v as int),
{
    lemma_int_text_parses(v as int, i32::MIN as int, i32::MAX as int);
}

/// A boolean value gives back the boolean it was made from.
pub proof fn lemma_bool_roundtrip(b: bool)
    ensures
        bool_of((bool_text(b), JsonType::Boolean)) == Ok::<bool, JsonError>(b),
{
    reveal_strlit("true");
    reveal_strlit("false");
    if !b {
        assert("false"@[0] != "true"@[0]);
    }
}

proof fn lemma_without_quotes_concat(a: Seq<char>, b: Seq<char>)
    ensures
        without_quotes(a + b) == without_quotes(a) + without_quotes(b),
    decreases b.len(),
{
    if b.len() == 0 {
        assert(a + b =~= a);
        assert(without_quotes(a) + without_quotes(b) =~= without_quotes(a));
    } else {
        assert((a + b).drop_last() =~= a + b.drop_last());
        lemma_without_quotes_concat(a, b.drop_last());
        if b.last() != '"' {
            assert(without_quotes(a) + without_quotes(b.drop_last()).push(b.last()) =~= (
            without_quotes(a) + without_quotes(b.drop_last())).push(b.last()));
        }
    }
}

/// The text of a string value, read back, is the string without its double quotes.
pub proof fn lemma_string_roundtrip(s: Seq<char>)
    ensures
        without_quotes(quoted(s)) == without_quotes(s),
{
    let q = seq!['"'];
    lemma_without_quotes_concat(q + s, q);
    lemma_without_quotes_concat(q, s);
    assert(q.drop_last() =~= Seq::<char>::empty());
    assert(q.last() == '"');
    assert(without_quotes(Seq::<char>::empty()) =~= Seq::<char>::empty());
    assert(without_quotes(q) =~= Seq::<char>::empty());
    assert(Seq::<char>::empty() + without_quotes(s) + Seq::<char>::empty() =~= without_quotes(s));
}

// ------------------------------------------------------------------------------------------
// Objects.
// ------------------------------------------------------------------------------------------

/// The entries of an object, in order of their keys.
pub open spec fn keys_sorted(entries: Seq<(Seq<char>, (Seq<char>, JsonType))>) -> bool {
    forall|i: int, j: int| 0 <= i < j < entries.len() ==> seq_lt(entries[i].0, entries[j].0)
}

/// The value an entry list holds under `key`.
pub open spec fn lookup(entries: Seq<(Seq<char>, (Seq<char>, JsonType))>, key: Seq<char>) -> Option<
    (Seq<char>, JsonType),
> {
    if exists|i: int| 0 <= i < entries.len() && #[trigger] entries[i].0 == key {
        Some(entries[key_index(entries, key)].1)
    } else {
        None
    }
}

/// A position of `key` in an entry list, if it has one.
pub open spec fn key_index(entries: Seq<(Seq<char>, (Seq<char>, JsonType))>, key: Seq<char>) -> int {
    choose|i: int| 0 <= i < entries.len() && #[trigger] entries[i].0 == key
}

/// An entry of a list with sorted keys is what the list holds under its key.
pub proof fn lemma_lookup_at(entries: Seq<(Seq<char>, (Seq<char>, JsonType))>, i: int)
    requires
        keys_sorted(entries),
        0 <= i < entries.len(),
    ensures
        lookup(entries, entries[i].0) == Some(entries[i].1),
        key_index(entries, entries[i].0) == i,
{
    let key = entries[i].0;
    assert(exists|k: int| 0 <= k < entries.len() && #[trigger] entries[k].0 == key);
    let j = key_index(entries, key);
    assert(0 <= j < entries.len() && entries[j].0 == key);
    if j != i {
        lemma_seq_lt_irreflexive(key);
        if j < i {
            assert(seq_lt(entries[j].0, entries[i].0));
        } else {
            assert(seq_lt(entries[i].0, entries[j].0));
        }
    }
    assert(j == i);
    assert(lookup(entries, key) == Some(entries[j].1));
}

proof fn lemma_insert_pos_unique(
    entries: Seq<(Seq<char>, (Seq<char>, JsonType))>,
    k: Seq<char>,
    p: int,
)
    requires
        is_insert_pos(entries, k, p),
    ensures
        insert_pos(entries, k) == p,
{
    let q = insert_pos(entries, k);
    assert(is_insert_pos(entries, k, q));
    if q < p {
        assert(seq_lt(entries[q].0, k));
    } else if p < q {
        assert(seq_lt(entries[p].0, k));
    }
}

/// A JSON object: keys and values, each key once, kept in key order.
#[derive(Debug, PartialEq, Eq, Clone)]
pub struct JsonObject {
    map: Vec<(String, JsonData)>,
}

impl View for JsonObject {
    type V = Seq<(Seq<char>, (Seq<char>, JsonType))>;

    closed spec fn view(&self) -> Seq<(Seq<char>, (Seq<char>, JsonType))> {
        self.map@.map_values(|e: (String, JsonData)| (e.0@, e.1@))
    }
}

impl JsonObject {
    /// The keys are in strictly increasing order.
    pub open spec fn wf(&self) -> bool {
        keys_sorted(self@)
    }

    /// The value the object holds under `key`.
    pub open spec fn value_of(&self, key: Seq<char>) -> Option<(Seq<char>, JsonType)> {
        lookup(self@, key)
    }

    /// An empty object.
    pub fn new() -> (r: Self)
        ensures
            r.wf(),
            r@ == Seq::<(Seq<char>, (Seq<char>, JsonType))>::empty(),
    {
        let r = Self { map: Vec::new() };
        assert(r@ =~= Seq::<(Seq<char>, (Seq<char>, JsonType))>::empty());
        r
    }

    /// Number of keys.
    pub fn len(&self) -> (n: usize)
        ensures
            n == self@.len(),
    {
        self.map.len()
    }

    /// Whether the object has no key.
    pub fn is_empty(&self) -> (b: bool)
        ensures
            b == (self@.len() == 0),
    {
        self.map.len() == 0
    }

    /// The entries, in key order.
    pub fn entries(&self) -> (e: &Vec<(String, JsonData)>)
        ensures
            e@.map_values(|e: (String, JsonData)| (e.0@, e.1@)) == self@,
    {
        &self.map
    }

    /// The entries, in key order.
    pub fn into_entries(self) -> (e: Vec<(String, JsonData)>)
        ensures
            e@.map_values(|e: (String, JsonData)| (e.0@, e.1@)) == self@,
    {
        self.map
    }

    /// Inserts a value under a key; returns the value the key had, which it replaces.
    pub fn insert(&mut self, k: String, v: JsonData) -> (r: Option<JsonData>)
        requires
            old(self).wf(),
        ensures
            final(self).wf(),
            forall|key: Seq<char>| #[trigger]
                final(self).value_of(key) == if key == k@ {
                    Some(v@)
                } else {
                    old(self).value_of(key)
                },
            match r {
                Some(old_v) => old(self).value_of(k@) == Some(old_v@),
                None => old(self).value_of(k@) is None,
            },
            final(self)@.len() == old(self)@.len() + (if old(self).value_of(k@) is Some {
                0int
            } else {
                1int
            }),
            final(self)@ == insert_entry(old(self)@, k@, v@),
    {
        let ghost old_entries = self@;
        let kc = chars_of(k.as_str());
        let mut i: usize = 0;
        while i < self.map.len() && chars_lt(chars_of(self.map[i].0.as_str()).as_slice(), kc.as_slice())
            invariant
                i <= self.map.len(),
                self@ == old_entries,
                keys_sorted(old_entries),
                kc@ == k@,
                forall|j: int| 0 <= j < i ==> seq_lt(#[trigger] old_entries[j].0, k@),
            decreases self.map.len() - i,
        {
            i += 1;
        }
        // every key before position i is smaller, every key from i on is at least k
        proof {
            assert forall|j: int| i <= j < old_entries.len() implies !seq_lt(
                #[trigger] old_entries[j].0,
                k@,
            ) by {
                if j > i {
                    if seq_lt(old_entries[j].0, k@) {
                        lemma_seq_lt_transitive(old_entries[i as int].0, old_entries[j].0, k@);
                    }
                }
            }
        }
        if i < self.map.len() && self.map[i].0 == k {
            let old_entry = self.map.remove(i);
            self.map.insert(i, (k, v));
            proof {
                assert(old_entries[i as int] == (old_entry.0@, old_entry.1@));
                assert(self@ =~= old_entries.update(i as int, (k@, v@)));
                assert forall|a: int| 0 <= a < self@.len() implies #[trigger] self@[a].0
                    == old_entries[a].0 by {}
                assert forall|a: int, b: int| 0 <= a < b < self@.len() implies seq_lt(
                    self@[a].0,
                    self@[b].0,
                ) by {
                    assert(self@[a].0 == old_entries[a].0);
                    assert(self@[b].0 == old_entries[b].0);
                }
                assert(keys_sorted(self@));
                lemma_lookup_at(old_entries, i as int);
                assert(self@ == insert_entry(old_entries, k@, v@));
                assert forall|key: Seq<char>| #[trigger] self.value_of(key) == if key == k@ {
                    Some(v@)
                } else {
                    old(self).value_of(key)
                } by {
                    lemma_lookup_at(self@, i as int);
                    if key != k@ {
                        if exists|j: int| 0 <= j < self@.len() && #[trigger] self@[j].0 == key {
                            let j = choose|j: int| 0 <= j < self@.len() && #[trigger] self@[j].0 == key;
                            lemma_lookup_at(self@, j);
                            lemma_lookup_at(old_entries, j);
                        } else {
                            assert forall|j: int| 0 <= j < old_entries.len() implies #[trigger] old_entries[j].0 != key by {
                                assert(self@[j].0 == old_entries[j].0 || j == i);
                            }
                        }
                    }
                }
            }
            Some(old_entry.1)
        } else {
            self.map.insert(i, (k, v));
            proof {
                assert(self@ =~= old_entries.insert(i as int, (k@, v@)));
                // k is not in the old entries
                assert(i < old_entries.len() ==> old_entries[i as int].0 != k@);
                assert forall|j: int| 0 <= j < old_entries.len() implies #[trigger] old_entries[j].0
                    != k@ by {
                    lemma_seq_lt_irreflexive(k@);
                    if j < i {
                        assert(seq_lt(old_entries[j].0, k@));
                    } else if j > i {
                        assert(seq_lt(old_entries[i as int].0, old_entries[j].0));
                        assert(!seq_lt(old_entries[i as int].0, k@));
                    }
                }
                if i < old_entries.len() {
                    lemma_seq_lt_total(old_entries[i as int].0, k@);
                }
                assert(is_insert_pos(old_entries, k@, i as int));
                lemma_insert_pos_unique(old_entries, k@, i as int);
                assert(lookup(old_entries, k@) is None);
                assert(self@ == insert_entry(old_entries, k@, v@));
                assert forall|a: int, b: int| 0 <= a < b < self@.len() implies seq_lt(
                    self@[a].0,
                    self@[b].0,
                ) by {
                    if a < i && b == i {
                    } else if a < i && b > i {
                        assert(self@[b] == old_entries[b - 1]);
                    } else if a == i && b > i {
                        assert(self@[b] == old_entries[b - 1]);
                        if b - 1 > i {
                            lemma_seq_lt_transitive(k@, old_entries[i as int].0, old_entries[b - 1].0);
                        }
                    } else if a > i {
                        assert(self@[a] == old_entries[a - 1]);
                        assert(self@[b] == old_entries[b - 1]);
                    }
                }
                assert forall|key: Seq<char>| #[trigger] self.value_of(key) == if key == k@ {
                    Some(v@)
                } else {
                    old(self).value_of(key)
                } by {
                    lemma_lookup_at(self@, i as int);
                    if key != k@ {
                        if exists|j: int| 0 <= j < old_entries.len() && #[trigger] old_entries[j].0 == key {
                            let j = choose|j: int| 0 <= j < old_entries.len() && #[trigger] old_entries[j].0 == key;
                            lemma_lookup_at(old_entries, j);
                            let nj = if j < i { j } else { j + 1 };
                            assert(self@[nj] == old_entries[j]);
                            lemma_lookup_at(self@, nj);
                        } else {
                            assert forall|j: int| 0 <= j < self@.len() implies #[trigger] self@[j].0 != key by {
                                if j < i {
                                    assert(self@[j] == old_entries[j]);
                                } else if j > i {
                                    assert(self@[j] == old_entries[j - 1]);
                                }
                            }
                        }
                    }
                }
            }
            None
        }
    }

    /// The value under `key`, if any.
    pub fn get(&self, key: &String) -> (r: Option<&JsonData>)
        requires
            self.wf(),
        ensures
            match r {
                Some(v) => self.value_of(key@) == Some(v@),
                None => self.value_of(key@) is None,
            },
    {
        let mut i: usize = 0;
        while i < self.map.len()
            invariant
                i <= self.map.len(),
                self.wf(),
                forall|j: int| 0 <= j < i ==> #[trigger] self@[j].0 != key@,
            decreases self.map.len() - i,
        {
            if self.map[i].0 == *key {
                proof {
                    lemma_lookup_at(self@, i as int);
                }
                return Some(&self.map[i].1);
            }
            i += 1;
        }
        None
    }

    /// Whether two objects hold the same keys and values.
    pub fn same_as(&self, other: &JsonObject) -> (b: bool)
        ensures
            b == (self@ == other@),
    {
        assert(self@.len() == self.map@.len());
        assert(other@.len() == other.map@.len());
        if self.map.len() != other.map.len() {
            return false;
        }
        let mut i: usize = 0;
        while i < self.map.len()
            invariant
                self.map.len() == other.map.len(),
                i <= self.map.len(),
                forall|j: int| 0 <= j < i ==> #[trigger] self@[j] == other@[j],
            decreases self.map.len() - i,
        {
            assert(self@[i as int] == (self.map@[i as int].0@, self.map@[i as int].1@));
            assert(other@[i as int] == (other.map@[i as int].0@, other.map@[i as int].1@));
            if !(self.map[i].0 == other.map[i].0 && self.map[i].1.data == other.map[i].1.data
                && self.map[i].1.data_type == other.map[i].1.data_type) {
                return false;
            }
            i += 1;
        }
        assert(self@ =~= other@);
        true
    }

    /// The same object.
    pub fn copy(&self) -> (r: JsonObject)
        ensures
            r@ == self@,
    {
        let mut map: Vec<(String, JsonData)> = Vec::new();
        let mut i: usize = 0;
        while i < self.map.len()
            invariant
                i <= self.map.len(),
                map@.map_values(|e: (String, JsonData)| (e.0@, e.1@)) =~= self@.take(i as int),
            decreases self.map.len() - i,
        {
            let entry = (self.map[i].0.clone(), self.map[i].1.copy());
            assert((entry.0@, entry.1@) == self@[i as int]);
            map.push(entry);
            assert(self@.take(i + 1) =~= self@.take(i as int).push(self@[i as int]));
            i += 1;
        }
        assert(self@.take(self.map.len() as int) =~= self@);
        JsonObject { map }
    }
}

/// Reading a key just written gives the value written; other keys keep their values.
pub proof fn lemma_insert_then_get(
    before: Seq<(Seq<char>, (Seq<char>, JsonType))>,
    after: Seq<(Seq<char>, (Seq<char>, JsonType))>,
    k: Seq<char>,
    v: (Seq<char>, JsonType),
    other: Seq<char>,
)
    requires
        forall|key: Seq<char>| #[trigger]
            lookup(after, key) == if key == k {
                Some(v)
            } else {
                lookup(before, key)
            },
    ensures
        lookup(after, k) == Some(v),
        other != k ==> lookup(after, other) == lookup(before, other),
{
    assert(lookup(after, k) == Some(v));
    assert(lookup(after, other) == if other == k {
        Some(v)
    } else {
        lookup(before, other)
    });
}

// ------------------------------------------------------------------------------------------
// Reading documents.
// ------------------------------------------------------------------------------------------

/// How reading a document ends: with a result, with an error, or in a panic of the slicing
/// that reads on past the end of the text.
pub enum Outcome<T> {
    Done(T),
    Failed,
    Panics,
}

/// The text from `i` on with the white space outside strings dropped; `in_string` tells
/// whether position `i` is inside a string, `escape` whether the character before was a
/// backslash inside one.
pub open spec fn clean_from(s: Seq<char>, i: int, in_string: bool, escape: bool) -> Seq<char>
    decreases s.len() - i,
{
    if i < 0 || i >= s.len() {
        Seq::empty()
    } else {
        let c = s[i];
        if escape {
            seq![c] + clean_from(s, i + 1, in_string, false)
        } else if c == '"' {
            seq![c] + clean_from(s, i + 1, !in_string, false)
        } else if in_string && c == '\\' {
            seq![c] + clean_from(s, i + 1, in_string, true)
        } else if !in_string && is_white_space(c) {
            clean_from(s, i + 1, in_string, false)
        } else {
            seq![c] + clean_from(s, i + 1, in_string, false)
        }
    }
}

/// A document with the white space outside strings dropped.
pub open spec fn clean(s: Seq<char>) -> Seq<char> {
    clean_from(s, 0, false, false)
}

pub proof fn lemma_clean_len(s: Seq<char>, i: int, in_string: bool, escape: bool)
    requires
        0 <= i <= s.len(),
    ensures
        clean_from(s, i, in_string, escape).len() <= s.len() - i,
    decreases s.len() - i,
{
    if i < s.len() {
        let c = s[i];
        if escape {
            lemma_clean_len(s, i + 1, in_string, false);
        } else if c == '"' {
            lemma_clean_len(s, i + 1, !in_string, false);
        } else if in_string && c == '\\' {
            lemma_clean_len(s, i + 1, in_string, true);
        } else {
            lemma_clean_len(s, i + 1, in_string, false);
        }
    }
}

/// Where the first key starts and how long it is: the characters after the first double
/// quote, up to the next one.
pub open spec fn key_position(d: Seq<char>) -> Result<(int, int), JsonError> {
    match find_char(d, '"') {
        Some(ks) => match find_char_from(d, '"', ks + 1) {
            Some(ke) => Ok((ks + 1, ke - (ks + 1))),
            None => Err(JsonError::ParseError),
        },
        None => Err(JsonError::ParseError),
    }
}

/// Counting `open` as one more and `close` as one less, from `count` at position `i`: where
/// the count first reaches zero.
pub open spec fn bracket_scan(s: Seq<char>, open: char, close: char, i: int, count: int) -> Option<
    int,
>
    decreases s.len() - i,
{
    if i < 0 || i >= s.len() {
        None
    } else {
        let c2 = if s[i] == open {
            count + 1
        } else if s[i] == close {
            count - 1
        } else {
            count
        };
        if c2 == 0 {
            Some(i)
        } else {
            bracket_scan(s, open, close, i + 1, c2)
        }
    }
}

/// The bracket that closes the one at `start` (`{` or `[`), found by counting.
pub open spec fn matching_bracket(s: Seq<char>, start: int) -> Result<int, JsonError> {
    if start >= s.len() {
        Err(JsonError::ParseError)
    } else {
        let open = s[start];
        if open != '{' && open != '[' {
            Err(JsonError::ParseError)
        } else {
            let close = if open == '{' {
                '}'
            } else {
                ']'
            };
            match bracket_scan(s, open, close, start + 1, 1) {
                Some(i) => Ok(i),
                None => Err(JsonError::ParseError),
            }
        }
    }
}

/// Where the last value of an array (`arr`) or object ends: the first closing bracket, when
/// no opening bracket of that kind comes before.
pub open spec fn last_value_end(d: Seq<char>, arr: bool) -> Result<int, JsonError> {
    let open = if arr {
        '['
    } else {
        '{'
    };
    let close = if arr {
        ']'
    } else {
        '}'
    };
    if find_char(d, open) is None {
        match find_char(d, close) {
            Some(e) => Ok(e),
            None => Err(JsonError::ParseError),
        }
    } else {
        Err(JsonError::ParseError)
    }
}

/// The end of a value that starts at the beginning of `t`: past the matching bracket for
/// an array or object, else the first `sep`, else the end of the enclosing array or object.
pub open spec fn value_end(t: Seq<char>, sep: Seq<char>, arr: bool) -> Result<int, JsonError> {
    if t.len() == 0 {
        Err(JsonError::ParseError)
    } else if t[0] == '[' || t[0] == '{' {
        match matching_bracket(t, 0) {
            Ok(m) => Ok(m + 1),
            Err(e) => Err(e),
        }
    } else {
        match find_seq(t, sep) {
            Some(e) => Ok(e),
            None => last_value_end(t, arr),
        }
    }
}

/// Where the first member of an array text starts (always 1, after the `[` or `,`) and how
/// long it is.
pub open spec fn arr_member(d: Seq<char>) -> Result<(int, int), JsonError> {
    match value_end(d.subrange(1, d.len() as int), seq![','], true) {
        Ok(end) => Ok((1, end)),
        Err(e) => Err(e),
    }
}

/// Where the first value of an object text starts (after the first `:`) and how long it is.
pub open spec fn value_position(d: Seq<char>) -> Result<(int, int), JsonError> {
    match find_char(d, ':') {
        Some(st) => match value_end(d.subrange(st + 1, d.len() as int), seq![',', '"'], false) {
            Ok(end) => Ok((st + 1, end)),
            Err(e) => Err(e),
        },
        None => Err(JsonError::ParseError),
    }
}

/// The first key, the text of its value, and where the value ends.
pub open spec fn line(d: Seq<char>) -> Result<(Seq<char>, Seq<char>, int), JsonError> {
    match key_position(d) {
        Ok((ks, ke)) => match value_position(d) {
            Ok((vs, ve)) => Ok((d.subrange(ks, ks + ke), d.subrange(vs, vs + ve), vs + ve)),
            Err(e) => Err(e),
        },
        Err(e) => Err(e),
    }
}

proof fn lemma_bracket_scan_bounds(s: Seq<char>, open: char, close: char, i: int, count: int)
    ensures
        bracket_scan(s, open, close, i, count) matches Some(k) ==> 0 <= i <= k < s.len(),
    decreases s.len() - i,
{
    if 0 <= i < s.len() {
        let c2 = if s[i] == open {
            count + 1
        } else if s[i] == close {
            count - 1
        } else {
            count
        };
        lemma_bracket_scan_bounds(s, open, close, i + 1, c2);
    }
}

proof fn lemma_value_end_bounds(t: Seq<char>, sep: Seq<char>, arr: bool)
    ensures
        value_end(t, sep, arr) matches Ok(e) ==> 0 <= e <= t.len(),
{
    if t.len() > 0 {
        if t[0] == '[' || t[0] == '{' {
            let open = t[0];
            let close = if open == '{' {
                '}'
            } else {
                ']'
            };
            lemma_bracket_scan_bounds(t, open, close, 1, 1);
        } else {
            lemma_find_seq_from_bounds(t, sep, 0);
            let open = if arr {
                '['
            } else {
                '{'
            };
            let close = if arr {
                ']'
            } else {
                '}'
            };
            lemma_find_char_from_bounds(t, close, 0);
        }
    }
}

proof fn lemma_key_position_bounds(d: Seq<char>)
    ensures
        key_position(d) matches Ok((ks, ke)) ==> 1 <= ks && 0 <= ke && ks + ke <= d.len(),
{
    lemma_find_char_from_bounds(d, '"', 0);
    if let Some(ks) = find_char(d, '"') {
        lemma_find_char_from_bounds(d, '"', ks + 1);
    }
}

proof fn lemma_value_position_bounds(d: Seq<char>)
    ensures
        value_position(d) matches Ok((vs, ve)) ==> 1 <= vs && 0 <= ve && vs + ve <= d.len(),
{
    lemma_find_char_from_bounds(d, ':', 0);
    if let Some(st) = find_char(d, ':') {
        lemma_value_end_bounds(d.subrange(st + 1, d.len() as int), seq![',', '"'], false);
    }
}

pub proof fn lemma_line_bounds(d: Seq<char>)
    ensures
        line(d) matches Ok((k, v, pe)) ==> 1 <= pe - v.len() && pe <= d.len() && v
            == d.subrange(pe - v.len(), pe) && k.len() <= d.len(),
{
    lemma_key_position_bounds(d);
    lemma_value_position_bounds(d);
}

pub proof fn lemma_arr_member_bounds(d: Seq<char>)
    requires
        d.len() >= 1,
    ensures
        arr_member(d) matches Ok((s, e)) ==> s == 1 && 0 <= e && 1 + e <= d.len(),
{
    lemma_value_end_bounds(d.subrange(1, d.len() as int), seq![','], true);
}

/// Sorted insertion: the position of the first key that is not smaller than `k`.
pub open spec fn insert_pos(entries: Seq<(Seq<char>, (Seq<char>, JsonType))>, k: Seq<char>) -> int {
    choose|p: int| is_insert_pos(entries, k, p)
}

/// Every key before `p` is smaller than `k`, none from `p` on is.
pub open spec fn is_insert_pos(
    entries: Seq<(Seq<char>, (Seq<char>, JsonType))>,
    k: Seq<char>,
    p: int,
) -> bool {
    &&& 0 <= p <= entries.len()
    &&& forall|j: int| 0 <= j < p ==> seq_lt(#[trigger] entries[j].0, k)
    &&& forall|j: int| p <= j < entries.len() ==> !seq_lt(#[trigger] entries[j].0, k)
}

/// The entries with `v` stored under `k`: in place of the old value, or at the key's
/// position in key order.
pub open spec fn insert_entry(
    entries: Seq<(Seq<char>, (Seq<char>, JsonType))>,
    k: Seq<char>,
    v: (Seq<char>, JsonType),
) -> Seq<(Seq<char>, (Seq<char>, JsonType))> {
    if lookup(entries, k) is Some {
        entries.update(key_index(entries, k), (k, v))
    } else {
        entries.insert(insert_pos(entries, k), (k, v))
    }
}

/// The key-value lines of a cleaned object text from `d` on, stored into `acc` one by one.
pub open spec fn parse_pairs(
    d: Seq<char>,
    acc: Seq<(Seq<char>, (Seq<char>, JsonType))>,
) -> Outcome<Seq<(Seq<char>, (Seq<char>, JsonType))>>
    decreases d.len(),
{
    if d.len() == 0 {
        Outcome::Done(acc)
    } else {
        match line(d) {
            Err(_) => Outcome::Failed,
            Ok((key, value, pe)) => match type_of_text(value) {
                Err(_) => Outcome::Failed,
                Ok(t) => if pe + 1 > d.len() {
                    Outcome::Panics
                } else {
                    proof {
                        lemma_line_bounds(d);
                    }
                    parse_pairs(d.subrange(pe + 1, d.len() as int), insert_entry(acc, key, (value, t)))
                },
            },
        }
    }
}

/// How `deserialize` reads an object text.
pub open spec fn parse_object(s: Seq<char>) -> Outcome<Seq<(Seq<char>, (Seq<char>, JsonType))>> {
    if s.len() == 0 {
        Outcome::Failed
    } else if clean(s) == "{}"@ {
        Outcome::Done(Seq::empty())
    } else {
        parse_pairs(clean(s), Seq::empty())
    }
}

/// The members of an array text from `d` on, appended to `acc` one by one.
pub open spec fn parse_items(d: Seq<char>, acc: Seq<(Seq<char>, JsonType)>) -> Outcome<
    Seq<(Seq<char>, JsonType)>,
>
    decreases d.len(),
{
    if d == "]"@ {
        Outcome::Done(acc)
    } else if d.len() == 0 {
        Outcome::Panics
    } else {
        match arr_member(d) {
            Err(_) => Outcome::Failed,
            Ok((vs, ve)) => {
                proof {
                    lemma_arr_member_bounds(d);
                }
                let value = d.subrange(1, 1 + ve);
                match type_of_text(value) {
                    Err(_) => Outcome::Failed,
                    Ok(t) => if ve + 1 > d.len() {
                        Outcome::Panics
                    } else {
                        parse_items(d.subrange(ve + 1, d.len() as int), acc.push((value, t)))
                    },
                }
            },
        }
    }
}

/// How `deserialize_array` reads an array text.
pub open spec fn parse_array(s: Seq<char>) -> Outcome<Seq<(Seq<char>, JsonType)>> {
    if s == "[]"@ {
        Outcome::Done(Seq::empty())
    } else {
        parse_items(s, Seq::empty())
    }
}

/// Reads JSON text.
pub struct JsonDeserializer {}

/// Writes JSON text.
pub struct JsonSerializer {}

/// The values of an array.
pub type JsonArray = Vec<JsonData>;

/// The views of an array's values.
pub open spec fn array_view(a: Seq<JsonData>) -> Seq<(Seq<char>, JsonType)> {
    a.map_values(|d: JsonData| d@)
}

impl JsonDeserializer {
    /// Reads an array text into its values.
    pub fn deserialize_array(data: &String) -> (r: Result<JsonArray, JsonError>)
        requires
            !(parse_array(data@) is Panics),
        ensures
            match parse_array(data@) {
                Outcome::Done(items) => r matches Ok(a) && array_view(a@) == items,
                _ => r == Err::<JsonArray, JsonError>(JsonError::ParseError),
            },
    {
        let chars = chars_of(data.as_str());
        proof {
            reveal_strlit("[]");
            reveal_strlit("]");
        }
        if chars_eq_str(chars.as_slice(), "[]") {
            let r = JsonArray::new();
            assert(array_view(r@) =~= Seq::<(Seq<char>, JsonType)>::empty());
            return Ok(r);
        }
        let mut d = chars;
        let mut ret = JsonArray::new();
        let ghost target = parse_items(data@, Seq::empty());
        assert(array_view(ret@) =~= Seq::<(Seq<char>, JsonType)>::empty());
        while !chars_eq_str(d.as_slice(), "]")
            invariant
                parse_items(d@, array_view(ret@)) == target,
                parse_array(data@) == target,
                !(target is Panics),
            decreases d.len(),
        {
            proof {
                lemma_arr_member_bounds(d@);
            }
            if d.len() == 0 {
                // reading on past the end of the text: excluded by the precondition
                assert(false);
                return Err(JsonError::ParseError);
            }
            let (value_start, value_end) = Self::get_arr_member(d.as_slice())?;
            let value = string_of_range(d.as_slice(), value_start, value_start + value_end);
            let item = JsonData::infer_from_string(value)?;
            if value_end + 1 > d.len() {
                assert(false);
                return Err(JsonError::ParseError);
            }
            let ghost before = ret@;
            ret.push(item);
            assert(array_view(ret@) =~= array_view(before).push(item@));
            d = copy_range(d.as_slice(), value_end + 1, d.len());
        }
        Ok(ret)
    }

    /// Reads an object text into its keys and values (the text must not be one whose
    /// reading fails outright; see [`JsonDeserializer::read_object`]).
    pub fn deserialize(data: String) -> (r: Result<JsonObject, JsonError>)
        requires
            !(parse_object(data@) is Panics),
        ensures
            match parse_object(data@) {
                Outcome::Done(entries) => r matches Ok(o) && o@ == entries && o.wf(),
                _ => r == Err::<JsonObject, JsonError>(JsonError::ParseError),
            },
    {
        Self::read_object(data)
    }

    /// Reads an object text into its keys and values; a text that does not read as an
    /// object, whether it fails or would fail outright, gives a parse error.
    pub fn read_object(data: String) -> (r: Result<JsonObject, JsonError>)
        ensures
            match parse_object(data@) {
                Outcome::Done(entries) => r matches Ok(o) && o@ == entries && o.wf(),
                _ => r == Err::<JsonObject, JsonError>(JsonError::ParseError),
            },
    {
        let chars = chars_of(data.as_str());
        if chars.len() == 0 {
            return Err(JsonError::ParseError);
        }
        let mut ret = JsonObject::new();
        let cleaned = Self::clean_json(chars.as_slice());
        proof {
            reveal_strlit("{}");
        }
        if chars_eq_str(cleaned.as_slice(), "{}") {
            return Ok(ret);
        }
        let ghost target = parse_pairs(clean(data@), Seq::empty());
        let mut d = cleaned;
        while d.len() > 0
            invariant
                parse_pairs(d@, ret@) == target,
                parse_object(data@) == target,
                ret.wf(),
            decreases d.len(),
        {
            proof {
                lemma_line_bounds(d@);
            }
            let (key, value, pair_end) = Self::get_line(d.as_slice())?;
            let item = JsonData::infer_from_string(value)?;
            if pair_end >= d.len() {
                return Err(JsonError::ParseError);
            }
            ret.insert(key, item);
            d = copy_range(d.as_slice(), pair_end + 1, d.len());
        }
        Ok(ret)
    }
}

impl JsonData {
    /// The keys and values of an object value.
    pub fn as_object(&self) -> (r: Result<JsonObject, JsonError>)
        requires
            self@.1 == JsonType::Object ==> !(parse_object(self@.0) is Panics),
        ensures
            self@.1 != JsonType::Object ==> r == Err::<JsonObject, JsonError>(JsonError::ParseError),
            self@.1 == JsonType::Object ==> match parse_object(self@.0) {
                Outcome::Done(entries) => r matches Ok(o) && o@ == entries && o.wf(),
                _ => r == Err::<JsonObject, JsonError>(JsonError::ParseError),
            },
    {
        if self.data_type != JsonType::Object {
            return Err(JsonError::ParseError);
        }
        JsonDeserializer::deserialize(self.data.clone())
    }

    /// The values of an array value.
    pub fn as_array(&self) -> (r: Result<JsonArray, JsonError>)
        requires
            self@.1 == JsonType::Array ==> !(parse_array(self@.0) is Panics),
        ensures
            self@.1 != JsonType::Array ==> r == Err::<JsonArray, JsonError>(JsonError::ParseError),
            self@.1 == JsonType::Array ==> match parse_array(self@.0) {
                Outcome::Done(items) => r matches Ok(a) && array_view(a@) == items,
                _ => r == Err::<JsonArray, JsonError>(JsonError::ParseError),
            },
    {
        if self.data_type != JsonType::Array {
            return Err(JsonError::ParseError);
        }
        JsonDeserializer::deserialize_array(&self.data)
    }
}

impl JsonObject {
    /// Reads an object text.
    pub fn from_text(value: String) -> (r: Result<JsonObject, JsonError>)
        requires
            !(parse_object(value@) is Panics),
        ensures
            match parse_object(value@) {
                Outcome::Done(entries) => r matches Ok(o) && o@ == entries && o.wf(),
                _ => r == Err::<JsonObject, JsonError>(JsonError::ParseError),
            },
    {
        JsonDeserializer::deserialize(value)
    }
}

impl JsonDeserializer {
    /// Where the first key starts and how long it is.
    fn get_key_position(data: &[char]) -> (r: Result<(usize, usize), JsonError>)
        ensures
            match key_position(data@) {
                Ok((ks, ke)) => r == Ok::<(usize, usize), JsonError>((ks as usize, ke as usize)),
                Err(e) => r == Err::<(usize, usize), JsonError>(e),
            },
    {
        proof {
            lemma_key_position_bounds(data@);
            assert(data@.subrange(0, data.len() as int) =~= data@);
            lemma_find_char_from_bounds(data@, '"', 0);
        }
        if let Some(key_start) = find_char_in(data, '"', 0, data.len()) {
            if let Some(key_end) = find_char_in(data, '"', key_start + 1, data.len()) {
                proof {
                    lemma_find_char_from_bounds(data@, '"', key_start + 1);
                }
                return Ok((key_start + 1, key_end - (key_start + 1)));
            }
        }
        Err(JsonError::ParseError)
    }

    /// The position of the bracket that closes the one at `start_index`.
    fn find_matching_closing_bracket(json_string: &[char], start_index: usize) -> (r: Result<
        usize,
        JsonError,
    >)
        requires
            start_index <= json_string.len(),
        ensures
            match matching_bracket(json_string@, start_index as int) {
                Ok(m) => r == Ok::<usize, JsonError>(m as usize),
                Err(e) => r == Err::<usize, JsonError>(e),
            },
    {
        if start_index >= json_string.len() {
            return Err(JsonError::ParseError);
        }
        let open_bracket = json_string[start_index];
        let close_bracket = if open_bracket == '{' {
            '}'
        } else if open_bracket == '[' {
            ']'
        } else {
            return Err(JsonError::ParseError);
        };
        let ghost s = json_string@;
        let mut bracket_count: usize = 1;
        let mut i = start_index + 1;
        proof {
            lemma_bracket_scan_bounds(s, open_bracket, close_bracket, i as int, 1);
        }
        while i < json_string.len()
            invariant
                start_index < i <= json_string.len(),
                s == json_string@,
                open_bracket == json_string@[start_index as int],
                open_bracket == '{' || open_bracket == '[',
                close_bracket == (if open_bracket == '{' {
                    '}'
                } else {
                    ']'
                }),
                1 <= bracket_count <= i - start_index,
                bracket_scan(s, open_bracket, close_bracket, i as int, bracket_count as int)
                    == bracket_scan(s, open_bracket, close_bracket, start_index + 1, 1),
            decreases json_string.len() - i,
        {
            let c = json_string[i];
            let ghost count0 = bracket_count as int;
            if c == open_bracket {
                bracket_count += 1;
            } else if c == close_bracket {
                bracket_count -= 1;
            }
            assert(bracket_scan(s, open_bracket, close_bracket, i as int, count0) == if bracket_count
                == 0 {
                Some(i as int)
            } else {
                bracket_scan(s, open_bracket, close_bracket, i + 1, bracket_count as int)
            });
            if bracket_count == 0 {
                return Ok(i);
            }
            i += 1;
        }
        Err(JsonError::ParseError)
    }

    /// Where the last value of an array (`arr`) or object ends.
    fn get_last_value(data: &[char], arr: bool) -> (r: Result<usize, JsonError>)
        ensures
            match last_value_end(data@, arr) {
                Ok(e) => r == Ok::<usize, JsonError>(e as usize),
                Err(e) => r == Err::<usize, JsonError>(e),
            },
    {
        proof {
            assert(data@.subrange(0, data.len() as int) =~= data@);
            lemma_find_char_from_bounds(data@, if arr { ']' } else { '}' }, 0);
        }
        let open = if arr {
            '['
        } else {
            '{'
        };
        let close = if arr {
            ']'
        } else {
            '}'
        };
        if find_char_in(data, open, 0, data.len()).is_none() {
            if let Some(end) = find_char_in(data, close, 0, data.len()) {
                return Ok(end);
            }
        }
        Err(JsonError::ParseError)
    }

    /// The end of the value at the start of `t`.
    fn get_value_end(t: &[char], sep: &[char], arr: bool) -> (r: Result<usize, JsonError>)
        ensures
            match value_end(t@, sep@, arr) {
                Ok(e) => r == Ok::<usize, JsonError>(e as usize),
                Err(e) => r == Err::<usize, JsonError>(e),
            },
    {
        proof {
            lemma_value_end_bounds(t@, sep@, arr);
            assert(t@.subrange(0, t.len() as int) =~= t@);
            lemma_bracket_scan_bounds(t@, '{', '}', 1, 1);
            lemma_bracket_scan_bounds(t@, '[', ']', 1, 1);
        }
        if t.len() == 0 {
            return Err(JsonError::ParseError);
        }
        if t[0] == '[' || t[0] == '{' {
            let m = Self::find_matching_closing_bracket(t, 0)?;
            Ok(m + 1)
        } else {
            match find_seq_in(t, sep, 0, t.len()) {
                Some(end) => Ok(end),
                None => Self::get_last_value(t, arr),
            }
        }
    }

    /// Where the first member of an array text starts and how long it is.
    fn get_arr_member(data: &[char]) -> (r: Result<(usize, usize), JsonError>)
        requires
            data.len() >= 1,
        ensures
            match arr_member(data@) {
                Ok((s, e)) => r == Ok::<(usize, usize), JsonError>((s as usize, e as usize)),
                Err(e) => r == Err::<(usize, usize), JsonError>(e),
            },
    {
        proof {
            lemma_arr_member_bounds(data@);
            reveal_strlit(",");
        }
        let t = copy_range(data, 1, data.len());
        let sep = chars_of(",");
        assert(sep@ =~= seq![',']);
        let end = Self::get_value_end(t.as_slice(), sep.as_slice(), true)?;
        Ok((1, end))
    }

    /// Where the first value of an object text starts and how long it is.
    fn get_value_position(data: &[char]) -> (r: Result<(usize, usize), JsonError>)
        ensures
            match value_position(data@) {
                Ok((s, e)) => r == Ok::<(usize, usize), JsonError>((s as usize, e as usize)),
                Err(e) => r == Err::<(usize, usize), JsonError>(e),
            },
    {
        proof {
            lemma_value_position_bounds(data@);
            assert(data@.subrange(0, data.len() as int) =~= data@);
            reveal_strlit(",\"");
        }
        if let Some(start) = find_char_in(data, ':', 0, data.len()) {
            proof {
                lemma_find_char_from_bounds(data@, ':', 0);
            }
            let t = copy_range(data, start + 1, data.len());
            let sep = chars_of(",\"");
            assert(sep@ =~= seq![',', '"']);
            let end = Self::get_value_end(t.as_slice(), sep.as_slice(), false)?;
            return Ok((start + 1, end));
        }
        Err(JsonError::ParseError)
    }

    /// The first key, the text of its value, and where the value ends.
    fn get_line(data: &[char]) -> (r: Result<(String, String, usize), JsonError>)
        ensures
            match line(data@) {
                Ok((k, v, pe)) => r matches Ok((rk, rv, rpe)) && rk@ == k && rv@ == v && rpe == pe,
                Err(e) => r is Err,
            },
    {
        proof {
            lemma_key_position_bounds(data@);
            lemma_value_position_bounds(data@);
        }
        let (key_start, key_end) = Self::get_key_position(data)?;
        let (value_start, value_end) = Self::get_value_position(data)?;
        assert(key_start + key_end <= data.len());
        assert(value_start + value_end <= data.len());
        Ok(
            (
                string_of_range(data, key_start, key_start + key_end),
                string_of_range(data, value_start, value_start + value_end),
                value_start + value_end,
            ),
        )
    }

    /// The text with the white space outside strings dropped.
    fn clean_json(json: &[char]) -> (result: Vec<char>)
        ensures
            result@ == clean(json@),
    {
        let mut result: Vec<char> = Vec::new();
        let mut in_string = false;
        let mut escape = false;
        let mut i: usize = 0;
        while i < json.len()
            invariant
                i <= json.len(),
                result@ + clean_from(json@, i as int, in_string, escape) == clean(json@),
            decreases json.len() - i,
        {
            let c = json[i];
            let ghost before = result@;
            let ghost in0 = in_string;
            let ghost esc0 = escape;
            if escape {
                result.push(c);
                escape = false;
            } else if c == '"' {
                result.push(c);
                in_string = !in_string;
            } else if in_string && c == '\\' {
                result.push(c);
                escape = true;
            } else if !in_string && is_whitespace(c) {
            } else {
                result.push(c);
            }
            proof {
                let rest = clean_from(json@, i + 1, in_string, escape);
                assert(clean_from(json@, i as int, in0, esc0) == if result@.len() == before.len() {
                    rest
                } else {
                    seq![c] + rest
                });
                assert(result@ + rest =~= before + clean_from(json@, i as int, in0, esc0));
            }
            i += 1;
        }
        assert(result@ + clean_from(json@, i as int, in_string, escape) == result@ + Seq::<
            char,
        >::empty());
        assert(result@ + Seq::<char>::empty() =~= result@);
        result
    }
}

// ------------------------------------------------------------------------------------------
// Facts about reading.
// ------------------------------------------------------------------------------------------

proof fn insert_pos_witness(
    entries: Seq<(Seq<char>, (Seq<char>, JsonType))>,
    k: Seq<char>,
    i: int,
) -> (p: int)
    requires
        keys_sorted(entries),
        0 <= i <= entries.len(),
        forall|j: int| 0 <= j < i ==> seq_lt(#[trigger] entries[j].0, k),
    ensures
        is_insert_pos(entries, k, p),
    decreases entries.len() - i,
{
    if i == entries.len() || !seq_lt(entries[i].0, k) {
        assert forall|j: int| i <= j < entries.len() implies !seq_lt(#[trigger] entries[j].0, k) by {
            if j > i && seq_lt(entries[j].0, k) {
                lemma_seq_lt_transitive(entries[i].0, entries[j].0, k);
            }
        }
        i
    } else {
        insert_pos_witness(entries, k, i + 1)
    }
}

/// In sorted entries, what is stored under a key after storing `v` under `k`: `v` for `k`,
/// what was there before for any other key.
pub proof fn lemma_lookup_insert_entry(
    entries: Seq<(Seq<char>, (Seq<char>, JsonType))>,
    k: Seq<char>,
    v: (Seq<char>, JsonType),
    key: Seq<char>,
)
    requires
        keys_sorted(entries),
    ensures
        lookup(insert_entry(entries, k, v), key) == if key == k {
            Some(v)
        } else {
            lookup(entries, key)
        },
{
    lemma_insert_entry(entries, k, v);
    let r = insert_entry(entries, k, v);
    if lookup(entries, k) is Some {
        let idx = key_index(entries, k);
        assert(0 <= idx < entries.len() && entries[idx].0 == k);
        assert(r == entries.update(idx, (k, v)));
        if key == k {
            lemma_lookup_at(r, idx);
        } else if exists|j: int| 0 <= j < entries.len() && #[trigger] entries[j].0 == key {
            let j = choose|j: int| 0 <= j < entries.len() && #[trigger] entries[j].0 == key;
            assert(j != idx);
            assert(r[j] == entries[j]);
            lemma_lookup_at(entries, j);
            lemma_lookup_at(r, j);
        } else {
            assert forall|j: int| 0 <= j < r.len() implies #[trigger] r[j].0 != key by {
                if j != idx {
                    assert(r[j] == entries[j]);
                }
            }
        }
    } else {
        let p0 = insert_pos_witness(entries, k, 0);
        let p = insert_pos(entries, k);
        assert(is_insert_pos(entries, k, p));
        assert(r == entries.insert(p, (k, v)));
        if key == k {
            assert(r[p] == (k, v));
            lemma_lookup_at(r, p);
        } else if exists|j: int| 0 <= j < entries.len() && #[trigger] entries[j].0 == key {
            let j = choose|j: int| 0 <= j < entries.len() && #[trigger] entries[j].0 == key;
            let nj = if j < p { j } else { j + 1 };
            assert(r[nj] == entries[j]);
            lemma_lookup_at(entries, j);
            lemma_lookup_at(r, nj);
        } else {
            assert forall|j: int| 0 <= j < r.len() implies #[trigger] r[j].0 != key by {
                if j < p {
                    assert(r[j] == entries[j]);
                } else if j > p {
                    assert(r[j] == entries[j - 1]);
                }
            }
        }
    }
}

/// Storing a value keeps the keys sorted; each entry afterwards is the new one or an old one.
pub proof fn lemma_insert_entry(
    entries: Seq<(Seq<char>, (Seq<char>, JsonType))>,
    k: Seq<char>,
    v: (Seq<char>, JsonType),
)
    requires
        keys_sorted(entries),
    ensures
        keys_sorted(insert_entry(entries, k, v)),
        forall|j: int|
            0 <= j < insert_entry(entries, k, v).len() ==> #[trigger] insert_entry(entries, k, v)[j]
                == (k, v) || exists|m: int|
                0 <= m < entries.len() && insert_entry(entries, k, v)[j] == #[trigger] entries[m],
{
    let r = insert_entry(entries, k, v);
    if lookup(entries, k) is Some {
        let idx = key_index(entries, k);
        assert(entries[idx].0 == k);
        assert forall|a: int, b: int| 0 <= a < b < r.len() implies seq_lt(r[a].0, r[b].0) by {
            assert(r[a].0 == entries[a].0);
            assert(r[b].0 == entries[b].0);
        }
        assert forall|j: int| 0 <= j < r.len() implies #[trigger] r[j] == (k, v) || exists|m: int|
            0 <= m < entries.len() && r[j] == #[trigger] entries[m] by {
            if j != idx {
                assert(r[j] == entries[j]);
            }
        }
    } else {
        let p0 = insert_pos_witness(entries, k, 0);
        let p = insert_pos(entries, k);
        assert(is_insert_pos(entries, k, p));
        assert forall|j: int| 0 <= j < entries.len() implies #[trigger] entries[j].0 != k by {
            if entries[j].0 == k {
                assert(lookup(entries, k) is Some);
            }
        }
        if p < entries.len() {
            lemma_seq_lt_total(entries[p].0, k);
        }
        assert forall|a: int, b: int| 0 <= a < b < r.len() implies seq_lt(r[a].0, r[b].0) by {
            if a < p && b == p {
            } else if a < p && b > p {
                assert(r[b] == entries[b - 1]);
            } else if a == p && b > p {
                assert(r[b] == entries[b - 1]);
                if b - 1 > p {
                    lemma_seq_lt_transitive(k, entries[p].0, entries[b - 1].0);
                }
            } else if a > p {
                assert(r[a] == entries[a - 1]);
                assert(r[b] == entries[b - 1]);
            }
        }
        assert forall|j: int| 0 <= j < r.len() implies #[trigger] r[j] == (k, v) || exists|m: int|
            0 <= m < entries.len() && r[j] == #[trigger] entries[m] by {
            if j < p {
                assert(r[j] == entries[j]);
            } else if j > p {
                assert(r[j] == entries[j - 1]);
            }
        }
    }
}

proof fn lemma_pairs_shorter(
    d: Seq<char>,
    acc: Seq<(Seq<char>, (Seq<char>, JsonType))>,
    bound: int,
)
    requires
        keys_sorted(acc),
        d.len() <= bound,
        forall|j: int| 0 <= j < acc.len() ==> (#[trigger] acc[j]).1.0.len() < bound,
    ensures
        parse_pairs(d, acc) matches Outcome::Done(e) ==> keys_sorted(e) && forall|j: int|
            0 <= j < e.len() ==> (#[trigger] e[j]).1.0.len() < bound,
    decreases d.len(),
{
    if d.len() > 0 {
        lemma_line_bounds(d);
        if let Ok((key, value, pe)) = line(d) {
            if let Ok(t) = type_of_text(value) {
                if pe + 1 <= d.len() {
                    let acc2 = insert_entry(acc, key, (value, t));
                    lemma_insert_entry(acc, key, (value, t));
                    assert forall|j: int| 0 <= j < acc2.len() implies (#[trigger] acc2[j]).1.0.len()
                        < bound by {
                        if acc2[j] != (key, (value, t)) {
                            let m = choose|m: int| 0 <= m < acc.len() && acc2[j] == #[trigger] acc[m];
                        }
                    }
                    lemma_pairs_shorter(d.subrange(pe + 1, d.len() as int), acc2, bound);
                }
            }
        }
    }
}

/// The values read from an object text are shorter than the text, and keyed in order.
pub proof fn lemma_object_children_shorter(s: Seq<char>)
    ensures
        parse_object(s) matches Outcome::Done(e) ==> keys_sorted(e) && forall|j: int|
            0 <= j < e.len() ==> (#[trigger] e[j]).1.0.len() < s.len(),
{
    if s.len() > 0 {
        lemma_clean_len(s, 0, false, false);
        lemma_pairs_shorter(clean(s), Seq::empty(), s.len() as int);
    }
}

proof fn lemma_items_shorter(d: Seq<char>, acc: Seq<(Seq<char>, JsonType)>, bound: int)
    requires
        d.len() <= bound,
        forall|j: int| 0 <= j < acc.len() ==> (#[trigger] acc[j]).0.len() < bound,
    ensures
        parse_items(d, acc) matches Outcome::Done(e) ==> forall|j: int|
            0 <= j < e.len() ==> (#[trigger] e[j]).0.len() < bound,
    decreases d.len(),
{
    if d != "]"@ && d.len() > 0 {
        lemma_arr_member_bounds(d);
        if let Ok((vs, ve)) = arr_member(d) {
            let value = d.subrange(1, 1 + ve);
            if let Ok(t) = type_of_text(value) {
                if ve + 1 <= d.len() {
                    let acc2 = acc.push((value, t));
                    assert forall|j: int| 0 <= j < acc2.len() implies (#[trigger] acc2[j]).0.len()
                        < bound by {
                        if j < acc.len() {
                            assert(acc2[j] == acc[j]);
                        }
                    }
                    lemma_items_shorter(d.subrange(ve + 1, d.len() as int), acc2, bound);
                }
            }
        }
    }
}

/// The values read from an array text are shorter than the text.
pub proof fn lemma_array_children_shorter(s: Seq<char>)
    ensures
        parse_array(s) matches Outcome::Done(e) ==> forall|j: int|
            0 <= j < e.len() ==> (#[trigger] e[j]).0.len() < s.len(),
{
    lemma_items_shorter(s, Seq::empty(), s.len() as int);
}

// ------------------------------------------------------------------------------------------
// Writing documents.
// ------------------------------------------------------------------------------------------

/// `n` tab characters (none for a negative `n`).
pub open spec fn tabs(n: int) -> Seq<char> {
    Seq::new(if n < 0 { 0nat } else { n as nat }, |i: int| '\t')
}

/// The texts `ts` with `sep` between each two of them.
pub open spec fn join(ts: Seq<Seq<char>>, sep: Seq<char>) -> Seq<char>
    decreases ts.len(),
{
    if ts.len() == 0 {
        Seq::empty()
    } else if ts.len() == 1 {
        ts[0]
    } else {
        join(ts.drop_last(), sep) + sep + ts.last()
    }
}

/// The length of the longest value text among `items` (zero for none).
pub open spec fn longest_item(items: Seq<(Seq<char>, JsonType)>) -> nat
    decreases items.len(),
{
    if items.len() == 0 {
        0
    } else {
        let rest = longest_item(items.drop_last());
        if items.last().0.len() > rest {
            items.last().0.len()
        } else {
            rest
        }
    }
}

/// The length of the longest value text among the entries (zero for none).
pub open spec fn longest_entry(entries: Seq<(Seq<char>, (Seq<char>, JsonType))>) -> nat
    decreases entries.len(),
{
    if entries.len() == 0 {
        0
    } else {
        let rest = longest_entry(entries.drop_last());
        if entries.last().1.0.len() > rest {
            entries.last().1.0.len()
        } else {
            rest
        }
    }
}

/// The text of an array whose members were written as `ts`.
pub open spec fn array_text(ts: Seq<Seq<char>>) -> Seq<char> {
    if ts.len() == 0 {
        seq!['[', ']']
    } else {
        seq!['['] + join(ts, seq![',']) + seq![']']
    }
}

/// The line of one key and its written value in an object written at depth `spacer`.
pub open spec fn entry_text(key: Seq<char>, value: Seq<char>, spacer: int, new_lines: bool) -> Seq<
    char,
> {
    (if new_lines {
        tabs(spacer + 1)
    } else {
        Seq::empty()
    }) + quoted(key) + seq![':', ' '] + value
}

/// The text of an object at depth `spacer` whose entries were written as `ts`.
pub open spec fn object_text(ts: Seq<Seq<char>>, spacer: int, new_lines: bool) -> Seq<char> {
    if ts.len() == 0 {
        seq!['{', '}']
    } else if new_lines {
        seq!['{', '\n'] + join(ts, seq![',', '\n']) + seq!['\n'] + tabs(spacer - 1) + seq!['}']
    } else {
        seq!['{'] + join(ts, seq![',']) + seq!['}']
    }
}

/// How `to_json_string` writes a value at depth `spacer`: scalars as their text, arrays and
/// objects read and written again; `None` where writing panics (a nested text that does not
/// read, or a depth past 255).
pub open spec fn render_value(d: (Seq<char>, JsonType), spacer: int, new_lines: bool) -> Option<
    Seq<char>,
>
    decreases d.0.len(), 2int, 0int,
{
    match d.1 {
        JsonType::Array => match parse_array(d.0) {
            Outcome::Done(items) => {
                proof {
                    lemma_array_children_shorter(d.0);
                    lemma_parse_array_nonempty(d.0);
                    lemma_longest_item_below(items, d.0.len() as int);
                }
                match render_items(items) {
                    Some(ts) => Some(array_text(ts)),
                    None => None,
                }
            },
            _ => None,
        },
        JsonType::Object => if spacer + 1 > 255 {
            None
        } else {
            match parse_object(d.0) {
                Outcome::Done(entries) => {
                    proof {
                        lemma_object_children_shorter(d.0);
                        lemma_longest_entry_below(entries, d.0.len() as int);
                    }
                    match render_entries(entries, spacer + 1, new_lines) {
                        Some(ts) => Some(object_text(ts, spacer + 1, new_lines)),
                        None => None,
                    }
                },
                _ => None,
            }
        },
        _ => Some(d.0),
    }
}

/// The members of an array, each written on its own at depth zero without new lines.
pub open spec fn render_items(items: Seq<(Seq<char>, JsonType)>) -> Option<Seq<Seq<char>>>
    decreases longest_item(items) + 1, 1int, items.len(),
{
    if items.len() == 0 {
        Some(Seq::empty())
    } else {
        match render_items(items.drop_last()) {
            Some(ts) => match render_value(items.last(), 0, false) {
                Some(t) => Some(ts.push(t)),
                None => None,
            },
            None => None,
        }
    }
}

/// The entry lines of an object written at depth `spacer`; each value is written one level
/// deeper, which panics past 255.
pub open spec fn render_entries(
    entries: Seq<(Seq<char>, (Seq<char>, JsonType))>,
    spacer: int,
    new_lines: bool,
) -> Option<Seq<Seq<char>>>
    decreases longest_entry(entries) + 1, 1int, entries.len(),
{
    if entries.len() == 0 {
        Some(Seq::empty())
    } else if spacer + 1 > 255 {
        None
    } else {
        match render_entries(entries.drop_last(), spacer, new_lines) {
            Some(ts) => match render_value(entries.last().1, spacer + 1, new_lines) {
                Some(t) => Some(ts.push(entry_text(entries.last().0, t, spacer, new_lines))),
                None => None,
            },
            None => None,
        }
    }
}

pub proof fn lemma_parse_array_nonempty(s: Seq<char>)
    ensures
        parse_array(s) is Done ==> s.len() > 0,
{
    reveal_strlit("[]");
    reveal_strlit("]");
    if s.len() == 0 {
        assert(s != "[]"@);
        assert(s != "]"@);
    }
}

pub proof fn lemma_longest_item_below(items: Seq<(Seq<char>, JsonType)>, bound: int)
    requires
        bound > 0,
        forall|j: int| 0 <= j < items.len() ==> (#[trigger] items[j]).0.len() < bound,
    ensures
        longest_item(items) < bound,
    decreases items.len(),
{
    if items.len() > 0 {
        let rest = items.drop_last();
        assert forall|j: int| 0 <= j < rest.len() implies (#[trigger] rest[j]).0.len() < bound by {
            assert(rest[j] == items[j]);
        }
        lemma_longest_item_below(rest, bound);
        assert(items.last() == items[items.len() - 1]);
    }
}

proof fn lemma_longest_item_ge(items: Seq<(Seq<char>, JsonType)>, j: int)
    requires
        0 <= j < items.len(),
    ensures
        items[j].0.len() <= longest_item(items),
    decreases items.len(),
{
    if j < items.len() - 1 {
        assert(items.drop_last()[j] == items[j]);
        lemma_longest_item_ge(items.drop_last(), j);
    }
}

pub proof fn lemma_longest_entry_below(entries: Seq<(Seq<char>, (Seq<char>, JsonType))>, bound: int)
    requires
        bound > 0,
        forall|j: int| 0 <= j < entries.len() ==> (#[trigger] entries[j]).1.0.len() < bound,
    ensures
        longest_entry(entries) < bound,
    decreases entries.len(),
{
    if entries.len() > 0 {
        let rest = entries.drop_last();
        assert forall|j: int| 0 <= j < rest.len() implies (#[trigger] rest[j]).1.0.len()
            < bound by {
            assert(rest[j] == entries[j]);
        }
        lemma_longest_entry_below(rest, bound);
        assert(entries.last() == entries[entries.len() - 1]);
    }
}

proof fn lemma_longest_entry_ge(entries: Seq<(Seq<char>, (Seq<char>, JsonType))>, j: int)
    requires
        0 <= j < entries.len(),
    ensures
        entries[j].1.0.len() <= longest_entry(entries),
    decreases entries.len(),
{
    if j < entries.len() - 1 {
        assert(entries.drop_last()[j] == entries[j]);
        lemma_longest_entry_ge(entries.drop_last(), j);
    }
}

/// Writing a list of members that writes fully writes each of its beginnings.
proof fn lemma_render_items_prefix(items: Seq<(Seq<char>, JsonType)>, i: int)
    requires
        0 <= i <= items.len(),
        render_items(items) is Some,
    ensures
        render_items(items.take(i)) is Some,
    decreases items.len(),
{
    if i < items.len() {
        assert(items.drop_last().take(i) == items.take(i));
        lemma_render_items_prefix(items.drop_last(), i);
    } else {
        assert(items.take(i) == items);
    }
}

/// Writing entries that write fully writes each of their beginnings.
proof fn lemma_render_entries_prefix(
    entries: Seq<(Seq<char>, (Seq<char>, JsonType))>,
    spacer: int,
    new_lines: bool,
    i: int,
)
    requires
        0 <= i <= entries.len(),
        render_entries(entries, spacer, new_lines) is Some,
    ensures
        render_entries(entries.take(i), spacer, new_lines) is Some,
    decreases entries.len(),
{
    if i < entries.len() {
        assert(entries.drop_last().take(i) == entries.take(i));
        lemma_render_entries_prefix(entries.drop_last(), spacer, new_lines, i);
    } else {
        assert(entries.take(i) == entries);
    }
}

/// Joining one more text adds the separator and the text.
pub proof fn lemma_join_push(ts: Seq<Seq<char>>, t: Seq<char>, sep: Seq<char>)
    ensures
        join(ts.push(t), sep) == (if ts.len() == 0 {
            t
        } else {
            join(ts, sep) + sep + t
        }),
{
    assert(ts.push(t).drop_last() =~= ts);
    if ts.len() == 0 {
        assert(ts.push(t)[0] == t);
    }
}

/// Appends the line of one entry: its indent, its key between double quotes, a colon and
/// a space, and its written value.
fn push_entry(out: &mut Vec<char>, key: &[char], value: &[char], spacer: u8, new_lines: bool)
    ensures
        final(out)@ == old(out)@ + entry_text(key@, value@, spacer as int, new_lines),
{
    let ghost start = out@;
    if new_lines {
        push_tabs(out, spacer as usize + 1);
    }
    let ghost indent = out@;
    out.push('"');
    push_all(out, key);
    out.push('"');
    out.push(':');
    out.push(' ');
    push_all(out, value);
    assert(out@ =~= start + entry_text(key@, value@, spacer as int, new_lines));
}

/// Writing entries one more step: the next entry's value writes, one level deeper.
proof fn lemma_render_entries_step(
    entries: Seq<(Seq<char>, (Seq<char>, JsonType))>,
    spacer: int,
    new_lines: bool,
    i: int,
)
    requires
        0 <= i < entries.len(),
        render_entries(entries, spacer, new_lines) is Some,
    ensures
        spacer + 1 <= 255,
        render_entries(entries.take(i), spacer, new_lines) is Some,
        render_value(entries[i].1, spacer + 1, new_lines) is Some,
        render_entries(entries.take(i + 1), spacer, new_lines) == Some(
            render_entries(entries.take(i), spacer, new_lines).unwrap().push(
                entry_text(
                    entries[i].0,
                    render_value(entries[i].1, spacer + 1, new_lines).unwrap(),
                    spacer,
                    new_lines,
                ),
            ),
        ),
        render_entries(entries.take(i + 1), spacer, new_lines).unwrap().len()
            == render_entries(entries.take(i), spacer, new_lines).unwrap().len() + 1,
{
    lemma_render_entries_prefix(entries, spacer, new_lines, i + 1);
    let next = entries.take(i + 1);
    assert(next.drop_last() =~= entries.take(i));
    assert(next.last() == entries[i]);
}

/// Appends the characters `s` to `out`.
fn push_all(out: &mut Vec<char>, s: &[char])
    ensures
        final(out)@ == old(out)@ + s@,
{
    let mut i: usize = 0;
    while i < s.len()
        invariant
            i <= s.len(),
            out@ == old(out)@ + s@.take(i as int),
        decreases s.len() - i,
    {
        out.push(s[i]);
        assert(s@.take(i + 1) == s@.take(i as int).push(s@[i as int]));
        i += 1;
    }
    assert(s@.take(s.len() as int) == s@);
}

/// Appends `n` tab characters to `out`.
fn push_tabs(out: &mut Vec<char>, n: usize)
    ensures
        final(out)@ == old(out)@ + tabs(n as int),
{
    let mut i: usize = 0;
    while i < n
        invariant
            i <= n,
            out@ == old(out)@ + tabs(i as int),
        decreases n - i,
    {
        out.push('\t');
        assert(tabs(i + 1) == tabs(i as int).push('\t'));
        i += 1;
    }
}

impl JsonSerializer {
    /// Writes an object at depth zero, one entry per line, in key order.
    pub fn serialize(json: JsonObject) -> (s: String)
        requires
            render_entries(json@, 0, true) is Some,
        ensures
            s@ == object_text(render_entries(json@, 0, true).unwrap(), 0, true),
    {
        Self::serialize_with_spacer(json, 0, true)
    }

    /// Writes an object at depth `spacer`: in key order, each entry on a line of its own
    /// indented by tabs when `new_lines` is set.
    fn serialize_with_spacer(json: JsonObject, spacer: u8, new_lines: bool) -> (s: String)
        requires
            render_entries(json@, spacer as int, new_lines) is Some,
        ensures
            s@ == object_text(
                render_entries(json@, spacer as int, new_lines).unwrap(),
                spacer as int,
                new_lines,
            ),
        decreases longest_entry(json@) + 1, 1int, 0int,
    {
        let ghost entries = json@;
        let n = json.map.len();
        if n == 0 {
            let mut out: Vec<char> = Vec::new();
            out.push('{');
            out.push('}');
            assert(out@ =~= seq!['{', '}']);
            return string_of(out.as_slice());
        }
        let ghost sep: Seq<char> = if new_lines {
            seq![',', '\n']
        } else {
            seq![',']
        };
        let mut out: Vec<char> = Vec::new();
        out.push('{');
        if new_lines {
            out.push('\n');
        }
        let ghost head = out@;
        assert(entries.take(0) =~= Seq::<(Seq<char>, (Seq<char>, JsonType))>::empty());
        let mut i: usize = 0;
        while i < n
            invariant
                0 <= i <= n,
                n == entries.len(),
                n > 0,
                json@ == entries,
                render_entries(entries, spacer as int, new_lines) is Some,
                render_entries(entries.take(i as int), spacer as int, new_lines) is Some,
                out@ == head + join(
                    render_entries(entries.take(i as int), spacer as int, new_lines).unwrap(),
                    sep,
                ),
                render_entries(entries.take(i as int), spacer as int, new_lines).unwrap().len()
                    == i,
                sep == (if new_lines {
                    seq![',', '\n']
                } else {
                    seq![',']
                }),
            decreases n - i,
        {
            proof {
                lemma_render_entries_step(entries, spacer as int, new_lines, i as int);
                lemma_longest_entry_ge(entries, i as int);
            }
            let ghost ts = render_entries(entries.take(i as int), spacer as int, new_lines).unwrap();
            let entry = &json.map[i];
            assert((entry.0@, entry.1@) == entries[i as int]);
            let value = entry.1.to_json_string(spacer + 1, new_lines);
            let ghost before = out@;
            if i > 0 {
                out.push(',');
                if new_lines {
                    out.push('\n');
                }
            }
            let ghost mid = out@;
            let key = chars_of(entry.0.as_str());
            let vchars = chars_of(value.as_str());
            push_entry(&mut out, key.as_slice(), vchars.as_slice(), spacer, new_lines);
            let ghost t = entry_text(entry.0@, value@, spacer as int, new_lines);
            proof {
                lemma_join_push(ts, t, sep);
                if i > 0 {
                    assert(mid =~= before + sep);
                } else {
                    assert(join(ts, sep) =~= Seq::<char>::empty());
                    assert(mid == before);
                }
                assert(out@ =~= head + join(ts.push(t), sep));
            }
            i += 1;
        }
        assert(entries.take(n as int) =~= entries);
        if new_lines {
            out.push('\n');
            let closing = if spacer >= 1 {
                spacer as usize - 1
            } else {
                0
            };
            push_tabs(&mut out, closing);
            assert(tabs(closing as int) == tabs(spacer - 1));
        }
        out.push('}');
        assert(out@ =~= object_text(
            render_entries(entries, spacer as int, new_lines).unwrap(),
            spacer as int,
            new_lines,
        ));
        string_of(out.as_slice())
    }

    /// Writes an array: its members one after the other, separated by commas.
    pub fn serialize_array(json: JsonArray) -> (s: String)
        requires
            render_items(array_view(json@)) is Some,
        ensures
            s@ == array_text(render_items(array_view(json@)).unwrap()),
        decreases longest_item(array_view(json@)) + 1, 1int, 0int,
    {
        let ghost items = array_view(json@);
        let n = json.len();
        if n == 0 {
            let mut out: Vec<char> = Vec::new();
            out.push('[');
            out.push(']');
            assert(items.len() == 0);
            assert(out@ =~= seq!['[', ']']);
            return string_of(out.as_slice());
        }
        let mut out: Vec<char> = Vec::new();
        out.push('[');
        let ghost head = out@;
        assert(items.take(0) =~= Seq::<(Seq<char>, JsonType)>::empty());
        let mut i: usize = 0;
        while i < n
            invariant
                0 <= i <= n,
                n == items.len(),
                n > 0,
                items == array_view(json@),
                render_items(items) is Some,
                render_items(items.take(i as int)) is Some,
                out@ == head + join(render_items(items.take(i as int)).unwrap(), seq![',']),
                render_items(items.take(i as int)).unwrap().len() == i,
                head == seq!['['],
            decreases n - i,
        {
            proof {
                lemma_render_items_prefix(items, i + 1);
                lemma_longest_item_ge(items, i as int);
            }
            let ghost pre = items.take(i as int);
            let ghost next = items.take(i + 1);
            assert(next.drop_last() =~= pre);
            assert(next.last() == items[i as int]);
            assert(items[i as int] == json@[i as int]@);
            let ghost ts = render_items(pre).unwrap();
            let ghost before = out@;
            if i > 0 {
                out.push(',');
            }
            let ghost mid = out@;
            let value = json[i].to_json_string(0, false);
            let vchars = chars_of(value.as_str());
            push_all(&mut out, vchars.as_slice());
            assert(render_items(next) == Some(ts.push(value@)));
            proof {
                lemma_join_push(ts, value@, seq![',']);
                if i == 0 {
                    assert(join(ts, seq![',']) =~= Seq::<char>::empty());
                }
                assert(out@ =~= head + join(ts.push(value@), seq![',']));
            }
            i += 1;
        }
        assert(items.take(n as int) =~= items);
        out.push(']');
        assert(out@ =~= array_text(render_items(items).unwrap()));
        string_of(out.as_slice())
    }
}

impl JsonData {
    /// The value written as JSON text at depth `spacer`: scalars as they stand, arrays and
    /// objects read and written again.
    pub fn to_json_string(&self, spacer: u8, new_lines: bool) -> (s: String)
        requires
            render_value(self@, spacer as int, new_lines) is Some,
        ensures
            s@ == render_value(self@, spacer as int, new_lines).unwrap(),
        decreases self@.0.len(), 2int, 0int,
    {
        match self.data_type {
            JsonType::Array => {
                let items = match self.as_array() {
                    Ok(a) => a,
                    Err(_) => {
                        assert(false);
                        return String::new();
                    },
                };
                proof {
                    lemma_array_children_shorter(self@.0);
                    lemma_parse_array_nonempty(self@.0);
                    lemma_longest_item_below(array_view(items@), self@.0.len() as int);
                }
                JsonSerializer::serialize_array(items)
            },
            JsonType::Object => {
                let obj = match JsonObject::from_text(self.data.clone()) {
                    Ok(o) => o,
                    Err(_) => {
                        assert(false);
                        return String::new();
                    },
                };
                proof {
                    lemma_object_children_shorter(self@.0);
                    lemma_longest_entry_below(obj@, self@.0.len() as int);
                }
                JsonSerializer::serialize_with_spacer(obj, spacer + 1, new_lines)
            },
            _ => self.data.clone(),
        }
    }
}

// ------------------------------------------------------------------------------------------
// Conversions.
// ------------------------------------------------------------------------------------------

/// A text that starts with an opening brace shows an object.
pub proof fn lemma_brace_text_is_object(s: Seq<char>)
    requires
        s.len() > 0,
        s[0] == '{',
    ensures
        type_of_text(s) == Ok::<JsonType, JsonError>(JsonType::Object),
{
    reveal_strlit("null");
    reveal_strlit("undefined");
    reveal_strlit("true");
    reveal_strlit("false");
    assert(s != "null"@ && s != "undefined"@ && s != "true"@ && s != "false"@) by {
        assert("null"@[0] == 'n');
        assert("undefined"@[0] == 'u');
        assert("true"@[0] == 't');
        assert("false"@[0] == 'f');
    }
    assert(!is_digit(s[0]));
    assert(!all_digits(s));
    assert(int_literal_value(s, true) is None);
    assert(digit_run(s, 0) == 0);
    assert(!is_float_number(s));
    assert(!is_special_float(s));
}

/// Members that are neither arrays nor objects are written as their texts.
pub proof fn lemma_scalar_items_render(items: Seq<(Seq<char>, JsonType)>)
    requires
        forall|j: int|
            0 <= j < items.len() ==> (#[trigger] items[j]).1 != JsonType::Array && items[j].1
                != JsonType::Object,
    ensures
        render_items(items) == Some(items.map_values(|d: (Seq<char>, JsonType)| d.0)),
    decreases items.len(),
{
    if items.len() > 0 {
        let rest = items.drop_last();
        assert forall|j: int| 0 <= j < rest.len() implies (#[trigger] rest[j]).1 != JsonType::Array
            && rest[j].1 != JsonType::Object by {
            assert(rest[j] == items[j]);
        }
        lemma_scalar_items_render(rest);
        assert(items.last() == items[items.len() - 1]);
        assert(render_value(items.last(), 0, false) == Some(items.last().0));
        assert(items.map_values(|d: (Seq<char>, JsonType)| d.0) =~= rest.map_values(
            |d: (Seq<char>, JsonType)| d.0,
        ).push(items.last().0));
    } else {
        assert(items.map_values(|d: (Seq<char>, JsonType)| d.0) =~= Seq::<Seq<char>>::empty());
    }
}

/// Entries whose values are neither arrays nor objects write at any depth below 255.
pub proof fn lemma_scalar_entries_render(
    entries: Seq<(Seq<char>, (Seq<char>, JsonType))>,
    spacer: int,
    new_lines: bool,
)
    requires
        spacer + 1 <= 255,
        forall|j: int|
            0 <= j < entries.len() ==> (#[trigger] entries[j]).1.1 != JsonType::Array
                && entries[j].1.1 != JsonType::Object,
    ensures
        render_entries(entries, spacer, new_lines) is Some,
    decreases entries.len(),
{
    if entries.len() > 0 {
        let rest = entries.drop_last();
        assert forall|j: int| 0 <= j < rest.len() implies (#[trigger] rest[j]).1.1
            != JsonType::Array && rest[j].1.1 != JsonType::Object by {
            assert(rest[j] == entries[j]);
        }
        lemma_scalar_entries_render(rest, spacer, new_lines);
        assert(entries.last() == entries[entries.len() - 1]);
        assert(render_value(entries.last().1, spacer + 1, new_lines) == Some(entries.last().1.0));
    }
}

/// The value an object turns into: its text written at depth zero with new lines.
pub open spec fn object_data(entries: Seq<(Seq<char>, (Seq<char>, JsonType))>) -> (
    Seq<char>,
    JsonType,
) {
    (object_text(render_entries(entries, 0, true).unwrap(), 0, true), JsonType::Object)
}

/// The texts of bytes written as integers.
pub open spec fn byte_texts(bytes: Seq<u8>) -> Seq<Seq<char>> {
    bytes.map_values(|b: u8| int_text(b as int))
}

/// What reading the members of an array as bytes gives: each an integer value from 0 to
/// 255, else an error at the first that is not.
pub open spec fn bytes_of_items(items: Seq<(Seq<char>, JsonType)>) -> Result<Seq<u8>, JsonError>
    decreases items.len(),
{
    if items.len() == 0 {
        Ok(Seq::empty())
    } else {
        match bytes_of_items(items.drop_last()) {
            Ok(bs) => if items.last().1 == JsonType::Integer && parse_int(
                items.last().0,
                0,
                255,
            ) is Some {
                Ok(bs.push(parse_int(items.last().0, 0, 255)->0 as u8))
            } else {
                Err(JsonError::ParseError)
            },
            Err(e) => Err(e),
        }
    }
}

/// What reading a value as bytes gives: the members of an array, read as bytes; nothing for
/// a value of another type.
pub open spec fn bytes_of(d: (Seq<char>, JsonType)) -> Result<Seq<u8>, JsonError> {
    if d.1 != JsonType::Array {
        Ok(Seq::empty())
    } else {
        match parse_array(d.0) {
            Outcome::Done(items) => bytes_of_items(items),
            _ => Err(JsonError::ParseError),
        }
    }
}

impl JsonData {
    /// An object value: the object written as text at depth zero with new lines.
    pub fn from_object(value: JsonObject) -> (r: JsonData)
        requires
            render_entries(value@, 0, true) is Some,
        ensures
            r@ == object_data(value@),
    {
        let text = JsonSerializer::serialize(value);
        proof {
            let ts = render_entries(value@, 0, true).unwrap();
            if ts.len() == 0 {
                assert(text@ == seq!['{', '}']);
            }
            assert(text@[0] == '{');
            lemma_brace_text_is_object(text@);
        }
        match Self::infer_from_string(text) {
            Ok(d) => d,
            Err(_) => {
                assert(false);
                JsonData::new_null()
            },
        }
    }

    /// An array value of bytes, each written as an integer.
    pub fn from_u8_vec(vec: Vec<u8>) -> (r: JsonData)
        ensures
            r@ == (array_text(byte_texts(vec@)), JsonType::Array),
    {
        let mut array = JsonArray::new();
        let mut i: usize = 0;
        while i < vec.len()
            invariant
                i <= vec.len(),
                array_view(array@) == vec@.take(i as int).map_values(
                    |b: u8| (int_text(b as int), JsonType::Integer),
                ),
            decreases vec.len() - i,
        {
            let item = JsonData::from_int(vec[i] as i32);
            let ghost before = array@;
            array.push(item);
            assert(item@ == (int_text(vec@[i as int] as int), JsonType::Integer));
            assert(array@ == before.push(item));
            assert(array_view(array@) =~= array_view(before).push(item@));
            assert(vec@.take(i + 1) =~= vec@.take(i as int).push(vec@[i as int]));
            assert(vec@.take(i + 1).map_values(|b: u8| (int_text(b as int), JsonType::Integer))
                =~= vec@.take(i as int).map_values(
                |b: u8| (int_text(b as int), JsonType::Integer),
            ).push((int_text(vec@[i as int] as int), JsonType::Integer)));
            i += 1;
        }
        let ghost items = array_view(array@);
        assert(vec@.take(vec.len() as int) =~= vec@);
        proof {
            lemma_scalar_items_render(items);
            assert(items.map_values(|d: (Seq<char>, JsonType)| d.0) =~= byte_texts(vec@));
        }
        let text = JsonSerializer::serialize_array(array);
        JsonData::new(text, JsonType::Array)
    }

    /// An array value of the given values, each written on its own at depth zero.
    pub fn from_array(array: JsonArray) -> (r: JsonData)
        requires
            render_items(array_view(array@)) is Some,
        ensures
            r@ == (array_text(render_items(array_view(array@)).unwrap()), JsonType::Array),
    {
        let text = JsonSerializer::serialize_array(array);
        JsonData::new(text, JsonType::Array)
    }

    /// The bytes of an array value (`Vec<u8>` from a value): each member an integer from 0
    /// to 255; nothing for a value that is not an array.
    pub fn as_u8_vec(&self) -> (r: Result<Vec<u8>, JsonError>)
        requires
            self@.1 == JsonType::Array ==> !(parse_array(self@.0) is Panics),
        ensures
            match bytes_of(self@) {
                Ok(bs) => r matches Ok(v) && v@ == bs,
                Err(e) => r == Err::<Vec<u8>, JsonError>(e),
            },
    {
        let mut out: Vec<u8> = Vec::new();
        if self.data_type != JsonType::Array {
            return Ok(out);
        }
        let items = JsonDeserializer::deserialize_array(&self.data)?;
        let ghost view = array_view(items@);
        let mut i: usize = 0;
        assert(view.take(0) =~= Seq::<(Seq<char>, JsonType)>::empty());
        while i < items.len()
            invariant
                i <= items.len(),
                view == array_view(items@),
                bytes_of(self@) == bytes_of_items(view),
                bytes_of_items(view.take(i as int)) == Ok::<Seq<u8>, JsonError>(out@),
            decreases items.len() - i,
        {
            assert(view.take(i + 1).drop_last() =~= view.take(i as int));
            assert(view.take(i + 1).last() == items@[i as int]@);
            match items[i].as_u8() {
                Ok(b) => {
                    out.push(b);
                },
                Err(e) => {
                    assert(bytes_of_items(view) == Err::<Seq<u8>, JsonError>(JsonError::ParseError))
                        by {
                        assert(bytes_of_items(view.take(i + 1)) == Err::<Seq<u8>, JsonError>(
                            JsonError::ParseError,
                        ));
                        lemma_bytes_of_items_prefix_err(view, i as int + 1);
                    }
                    return Err(e);
                },
            }
            i += 1;
        }
        assert(view.take(items.len() as int) =~= view);
        Ok(out)
    }
}

/// An error in reading some beginning of the members is the error of reading them all.
proof fn lemma_bytes_of_items_prefix_err(items: Seq<(Seq<char>, JsonType)>, i: int)
    requires
        0 <= i <= items.len(),
        bytes_of_items(items.take(i)) is Err,
    ensures
        bytes_of_items(items) == bytes_of_items(items.take(i)),
    decreases items.len() - i,
{
    if i < items.len() {
        assert(items.take(i + 1).drop_last() =~= items.take(i));
        lemma_bytes_of_items_prefix_err(items, i + 1);
    } else {
        assert(items.take(i) =~= items);
    }
}

// ------------------------------------------------------------------------------------------
// Writing and reading back plain documents.
// ------------------------------------------------------------------------------------------

/// The string state after `clean_from` has gone over `s` from `i`: inside a string, and
/// after a backslash inside one.
pub open spec fn clean_state(s: Seq<char>, i: int, in_string: bool, escape: bool) -> (bool, bool)
    decreases s.len() - i,
{
    if i < 0 || i >= s.len() {
        (in_string, escape)
    } else {
        let c = s[i];
        if escape {
            clean_state(s, i + 1, in_string, false)
        } else if c == '"' {
            clean_state(s, i + 1, !in_string, false)
        } else if in_string && c == '\\' {
            clean_state(s, i + 1, in_string, true)
        } else {
            clean_state(s, i + 1, in_string, false)
        }
    }
}

/// Cleaning the tail of a text after a prefix is cleaning the tail on its own.
proof fn lemma_clean_shift(a: Seq<char>, b: Seq<char>, j: int, in_string: bool, escape: bool)
    requires
        0 <= j <= b.len(),
    ensures
        clean_from(a + b, a.len() + j, in_string, escape) == clean_from(b, j, in_string, escape),
        clean_state(a + b, a.len() + j, in_string, escape) == clean_state(b, j, in_string, escape),
    decreases b.len() - j,
{
    if j < b.len() {
        assert((a + b)[a.len() + j] == b[j]);
        let c = b[j];
        if escape {
            lemma_clean_shift(a, b, j + 1, in_string, false);
        } else if c == '"' {
            lemma_clean_shift(a, b, j + 1, !in_string, false);
        } else if in_string && c == '\\' {
            lemma_clean_shift(a, b, j + 1, in_string, true);
        } else {
            lemma_clean_shift(a, b, j + 1, in_string, false);
        }
    }
}

/// Cleaning two texts one after the other: the first from where it starts, the second from
/// the state the first ends in.
proof fn lemma_clean_concat(a: Seq<char>, b: Seq<char>, i: int, in_string: bool, escape: bool)
    requires
        0 <= i <= a.len(),
    ensures
        clean_from(a + b, i, in_string, escape) == clean_from(a, i, in_string, escape) + clean_from(
            b,
            0,
            clean_state(a, i, in_string, escape).0,
            clean_state(a, i, in_string, escape).1,
        ),
        clean_state(a + b, i, in_string, escape) == clean_state(
            b,
            0,
            clean_state(a, i, in_string, escape).0,
            clean_state(a, i, in_string, escape).1,
        ),
    decreases a.len() - i,
{
    if i == a.len() {
        lemma_clean_shift(a, b, 0, in_string, escape);
        assert(clean_from(a, i, in_string, escape) =~= Seq::<char>::empty());
    } else {
        assert((a + b)[i] == a[i]);
        let c = a[i];
        if escape {
            lemma_clean_concat(a, b, i + 1, in_string, false);
        } else if c == '"' {
            lemma_clean_concat(a, b, i + 1, !in_string, false);
        } else if in_string && c == '\\' {
            lemma_clean_concat(a, b, i + 1, in_string, true);
        } else {
            lemma_clean_concat(a, b, i + 1, in_string, false);
        }
    }
}

/// Whether a text holds no double quote and no backslash.
pub open spec fn unescaped(s: Seq<char>) -> bool {
    forall|i: int| 0 <= i < s.len() ==> s[i] != '"' && s[i] != '\\'
}

/// Whether a text holds no double quote and no white space.
pub open spec fn bare(s: Seq<char>) -> bool {
    forall|i: int| 0 <= i < s.len() ==> s[i] != '"' && !is_white_space(s[i])
}

/// Whether a text is all white space.
pub open spec fn blank(s: Seq<char>) -> bool {
    forall|i: int| 0 <= i < s.len() ==> is_white_space(s[i])
}

/// Outside strings, a bare text is kept as it is.
proof fn lemma_clean_bare(s: Seq<char>, i: int)
    requires
        bare(s),
        0 <= i <= s.len(),
    ensures
        clean_from(s, i, false, false) == s.subrange(i, s.len() as int),
        clean_state(s, i, false, false) == (false, false),
    decreases s.len() - i,
{
    if i < s.len() {
        lemma_clean_bare(s, i + 1);
        assert(s.subrange(i, s.len() as int) =~= seq![s[i]] + s.subrange(i + 1, s.len() as int));
    } else {
        assert(s.subrange(i, s.len() as int) =~= Seq::<char>::empty());
    }
}

/// Inside a string, a text without quotes or backslashes is kept as it is.
proof fn lemma_clean_unescaped(s: Seq<char>, i: int)
    requires
        unescaped(s),
        0 <= i <= s.len(),
    ensures
        clean_from(s, i, true, false) == s.subrange(i, s.len() as int),
        clean_state(s, i, true, false) == (true, false),
    decreases s.len() - i,
{
    if i < s.len() {
        lemma_clean_unescaped(s, i + 1);
        assert(s.subrange(i, s.len() as int) =~= seq![s[i]] + s.subrange(i + 1, s.len() as int));
    } else {
        assert(s.subrange(i, s.len() as int) =~= Seq::<char>::empty());
    }
}

/// Outside strings, white space is dropped.
proof fn lemma_clean_blank(s: Seq<char>, i: int)
    requires
        blank(s),
        0 <= i <= s.len(),
    ensures
        clean_from(s, i, false, false) == Seq::<char>::empty(),
        clean_state(s, i, false, false) == (false, false),
    decreases s.len() - i,
{
    if i < s.len() {
        assert(s[i] != '"') by {
            assert(is_white_space(s[i]));
        }
        lemma_clean_blank(s, i + 1);
    }
}

/// A quoted text without quotes or backslashes is kept as it is.
proof fn lemma_clean_quoted(k: Seq<char>)
    requires
        unescaped(k),
    ensures
        clean_from(quoted(k), 0, false, false) == quoted(k),
        clean_state(quoted(k), 0, false, false) == (false, false),
{
    let q = seq!['"'];
    lemma_clean_unescaped(k, 0);
    assert(k.subrange(0, k.len() as int) =~= k);
    assert(clean_state(q, 1, true, false) == (true, false));
    assert(clean_state(q, 0, false, false) == (true, false));
    assert(clean_from(q, 1, true, false) =~= Seq::<char>::empty());
    assert(clean_from(q, 0, false, false) =~= q);
    lemma_clean_concat(q, k, 0, false, false);
    assert(clean_from(q + k, 0, false, false) =~= q + k);
    assert(clean_state(q + k, 0, false, false) == (true, false));
    assert(clean_state(q, 1, false, false) == (false, false));
    assert(clean_state(q, 0, true, false) == (false, false));
    assert(clean_from(q, 1, false, false) =~= Seq::<char>::empty());
    assert(clean_from(q, 0, true, false) =~= q);
    lemma_clean_concat(q + k, q, 0, false, false);
    assert(quoted(k) =~= q + k + q);
}

/// A character the reader of a value leaves alone: no quote, backslash, brace, opening
/// bracket or comma.
pub open spec fn plain_value_char(c: char) -> bool {
    c != '"' && c != '\\' && c != '{' && c != '}' && c != '[' && c != ','
}

/// A key the reader finds again: no quote, backslash or colon.
pub open spec fn plain_key(k: Seq<char>) -> bool {
    forall|i: int| 0 <= i < k.len() ==> k[i] != '"' && k[i] != '\\' && k[i] != ':'
}

/// A scalar value the reader finds again: its text shows its type; a string is quoted
/// plain characters, any other value is plain characters without white space.
pub open spec fn plain_value(d: (Seq<char>, JsonType)) -> bool {
    &&& type_of_text(d.0) == Ok::<JsonType, JsonError>(d.1)
    &&& d.1 != JsonType::Array
    &&& d.1 != JsonType::Object
    &&& if d.1 == JsonType::String {
        &&& d.0.len() >= 2
        &&& d.0[0] == '"'
        &&& d.0[d.0.len() - 1] == '"'
        &&& forall|i: int| 1 <= i < d.0.len() - 1 ==> plain_value_char(#[trigger] d.0[i])
    } else {
        &&& d.0.len() > 0
        &&& forall|i: int| 0 <= i < d.0.len() ==> plain_value_char(#[trigger] d.0[i]) && !is_white_space(d.0[i])
    }
}

/// Entries whose keys and values the reader finds again.
pub open spec fn plain_entries(entries: Seq<(Seq<char>, (Seq<char>, JsonType))>) -> bool {
    forall|i: int| 0 <= i < entries.len() ==> plain_key(#[trigger] entries[i].0) && plain_value(entries[i].1)
}

/// The entry lines of an object written at depth zero with new lines.
pub open spec fn entry_texts(entries: Seq<(Seq<char>, (Seq<char>, JsonType))>) -> Seq<Seq<char>> {
    entries.map_values(|e: (Seq<char>, (Seq<char>, JsonType))| entry_text(e.0, e.1.0, 0, true))
}

/// An entry as the reader sees it once white space is dropped: quoted key, colon, value.
pub open spec fn clean_entry(e: (Seq<char>, (Seq<char>, JsonType))) -> Seq<char> {
    quoted(e.0) + seq![':'] + e.1.0
}

/// The entries as the reader sees them.
pub open spec fn clean_entries(entries: Seq<(Seq<char>, (Seq<char>, JsonType))>) -> Seq<Seq<char>> {
    entries.map_values(|e: (Seq<char>, (Seq<char>, JsonType))| clean_entry(e))
}

/// Scalar entries are written as their entry lines.
proof fn lemma_render_scalars(entries: Seq<(Seq<char>, (Seq<char>, JsonType))>)
    requires
        plain_entries(entries),
    ensures
        render_entries(entries, 0, true) == Some(entry_texts(entries)),
    decreases entries.len(),
{
    if entries.len() > 0 {
        let rest = entries.drop_last();
        assert forall|i: int| 0 <= i < rest.len() implies plain_key(#[trigger] rest[i].0) && plain_value(
            rest[i].1,
        ) by {
            assert(rest[i] == entries[i]);
        }
        lemma_render_scalars(rest);
        let last = entries.last();
        assert(last == entries[entries.len() - 1]);
        assert(plain_key(entries[entries.len() - 1].0));
        assert(render_value(last.1, 1, true) == Some(last.1.0));
        assert(entry_texts(rest).push(entry_text(last.0, last.1.0, 0, true)) =~= entry_texts(entries));
    } else {
        assert(entry_texts(entries) =~= Seq::<Seq<char>>::empty());
    }
}

/// A plain entry's line, once white space is dropped, is the entry as the reader sees it.
proof fn lemma_clean_entry(e: (Seq<char>, (Seq<char>, JsonType)))
    requires
        plain_key(e.0),
        plain_value(e.1),
    ensures
        clean_from(entry_text(e.0, e.1.0, 0, true), 0, false, false) == clean_entry(e),
        clean_state(entry_text(e.0, e.1.0, 0, true), 0, false, false) == (false, false),
{
    let t = tabs(1);
    let qk = quoted(e.0);
    let cs = seq![':', ' '];
    let v = e.1.0;
    lemma_clean_blank(t, 0);
    lemma_clean_quoted(e.0);
    lemma_clean_concat(t, qk, 0, false, false);
    assert(clean_state(cs, 2, false, false) == (false, false));
    assert(clean_state(cs, 1, false, false) == (false, false));
    assert(clean_state(cs, 0, false, false) == (false, false));
    assert(clean_from(cs, 2, false, false) =~= Seq::<char>::empty());
    assert(clean_from(cs, 1, false, false) =~= Seq::<char>::empty());
    assert(clean_from(cs, 0, false, false) =~= seq![':']);
    lemma_clean_concat(t + qk, cs, 0, false, false);
    if e.1.1 == JsonType::String {
        let inner = v.subrange(1, v.len() - 1);
        assert(v =~= quoted(inner));
        assert forall|i: int| 0 <= i < inner.len() implies inner[i] != '"' && inner[i] != '\\' by {
            assert(inner[i] == v[i + 1]);
            assert(plain_value_char(v[i + 1]));
        }
        lemma_clean_quoted(inner);
    } else {
        assert forall|i: int| 0 <= i < v.len() implies v[i] != '"' && !is_white_space(v[i]) by {
            assert(plain_value_char(v[i]));
        }
        lemma_clean_bare(v, 0);
        assert(v.subrange(0, v.len() as int) =~= v);
    }
    lemma_clean_concat(t + qk + cs, v, 0, false, false);
    assert(entry_text(e.0, v, 0, true) =~= t + qk + cs + v);
    assert(clean_from(t, 0, false, false) + qk + seq![':'] + v =~= clean_entry(e));
}

/// The entry lines joined with commas and new lines read, once white space is dropped, as
/// the entries joined with commas.
proof fn lemma_clean_join(entries: Seq<(Seq<char>, (Seq<char>, JsonType))>)
    requires
        entries.len() > 0,
        plain_entries(entries),
    ensures
        clean_from(join(entry_texts(entries), seq![',', '\n']), 0, false, false) == join(
            clean_entries(entries),
            seq![','],
        ),
        clean_state(join(entry_texts(entries), seq![',', '\n']), 0, false, false) == (false, false),
    decreases entries.len(),
{
    let ts = entry_texts(entries);
    let cs = clean_entries(entries);
    let last = entries[entries.len() - 1];
    assert(plain_key(entries[entries.len() - 1].0));
    lemma_clean_entry(last);
    if entries.len() == 1 {
        assert(join(ts, seq![',', '\n']) == ts[0]);
        assert(join(cs, seq![',']) == cs[0]);
    } else {
        let rest = entries.drop_last();
        assert forall|i: int| 0 <= i < rest.len() implies plain_key(#[trigger] rest[i].0) && plain_value(
            rest[i].1,
        ) by {
            assert(rest[i] == entries[i]);
        }
        lemma_clean_join(rest);
        assert(ts.drop_last() =~= entry_texts(rest));
        assert(cs.drop_last() =~= clean_entries(rest));
        let sep = seq![',', '\n'];
        assert(clean_state(sep, 2, false, false) == (false, false));
        assert(clean_state(sep, 1, false, false) == (false, false));
        assert(clean_state(sep, 0, false, false) == (false, false));
        assert(clean_from(sep, 2, false, false) =~= Seq::<char>::empty());
        assert(clean_from(sep, 1, false, false) =~= Seq::<char>::empty());
        assert(clean_from(sep, 0, false, false) =~= seq![',']);
        let a = join(entry_texts(rest), sep);
        lemma_clean_concat(a, sep, 0, false, false);
        lemma_clean_concat(a + sep, ts.last(), 0, false, false);
        assert(ts.last() == entry_text(last.0, last.1.0, 0, true));
        assert(cs.last() == clean_entry(last));
    }
}

/// The text of plain entries written as an object reads, once white space is dropped, as
/// the entries joined with commas between braces.
proof fn lemma_clean_object(entries: Seq<(Seq<char>, (Seq<char>, JsonType))>)
    requires
        entries.len() > 0,
        plain_entries(entries),
    ensures
        clean(object_text(entry_texts(entries), 0, true)) == seq!['{'] + join(
            clean_entries(entries),
            seq![','],
        ) + seq!['}'],
{
    let open = seq!['{', '\n'];
    let body = join(entry_texts(entries), seq![',', '\n']);
    let close = seq!['\n'] + tabs(-1) + seq!['}'];
    assert(close =~= seq!['\n', '}']);
    assert(object_text(entry_texts(entries), 0, true) =~= open + body + close);
    lemma_clean_join(entries);
    assert(clean_state(open, 2, true, false) == (true, false));
    assert(clean_state(open, 2, false, false) == (false, false));
    assert(clean_state(open, 1, false, false) == (false, false));
    assert(clean_state(open, 0, false, false) == (false, false));
    assert(clean_from(open, 2, false, false) =~= Seq::<char>::empty());
    assert(clean_from(open, 1, false, false) =~= Seq::<char>::empty());
    assert(clean_from(open, 0, false, false) =~= seq!['{']);
    assert(clean_from(close, 2, false, false) =~= Seq::<char>::empty());
    assert(clean_from(close, 1, false, false) =~= seq!['}']);
    assert(clean_from(close, 0, false, false) =~= seq!['}']);
    lemma_clean_concat(open, body, 0, false, false);
    lemma_clean_concat(open + body, close, 0, false, false);
}

/// The first `c` from `i` on is at `k` when it stands there and not before.
proof fn lemma_find_char_at(s: Seq<char>, c: char, i: int, k: int)
    requires
        0 <= i <= k < s.len(),
        s[k] == c,
        forall|j: int| i <= j < k ==> s[j] != c,
    ensures
        find_char_from(s, c, i) == Some(k),
    decreases k - i,
{
    if i < k {
        lemma_find_char_at(s, c, i + 1, k);
    }
}

/// There is no `c` from `i` on when none stands there.
proof fn lemma_find_char_none(s: Seq<char>, c: char, i: int)
    requires
        0 <= i,
        forall|j: int| i <= j < s.len() ==> s[j] != c,
    ensures
        find_char_from(s, c, i) is None,
    decreases s.len() - i,
{
    if i < s.len() {
        lemma_find_char_none(s, c, i + 1);
    }
}

/// The first occurrence of `pat` from `i` on is at `k` when it occurs there and not before.
proof fn lemma_find_seq_at(s: Seq<char>, pat: Seq<char>, i: int, k: int)
    requires
        0 <= i <= k,
        occurs_at(s, pat, k),
        forall|j: int| i <= j < k ==> !occurs_at(s, pat, j),
    ensures
        find_seq_from(s, pat, i) == Some(k),
    decreases k - i,
{
    if i < k {
        lemma_find_seq_at(s, pat, i + 1, k);
    }
}

/// `pat` does not occur from `i` on when it occurs nowhere there.
proof fn lemma_find_seq_none(s: Seq<char>, pat: Seq<char>, i: int)
    requires
        0 <= i,
        forall|j: int| i <= j ==> !occurs_at(s, pat, j),
    ensures
        find_seq_from(s, pat, i) is None,
    decreases s.len() - i,
{
    if i + pat.len() <= s.len() && i < s.len() {
        lemma_find_seq_none(s, pat, i + 1);
    }
}

/// Texts joined with a separator: the first, the separator, then the others joined.
proof fn lemma_join_first(ts: Seq<Seq<char>>, sep: Seq<char>)
    requires
        ts.len() >= 2,
    ensures
        join(ts, sep) == ts[0] + sep + join(ts.drop_first(), sep),
    decreases ts.len(),
{
    if ts.len() == 2 {
        assert(ts.drop_last().len() == 1);
        assert(ts.drop_first().len() == 1);
        assert(join(ts.drop_last(), sep) == ts[0]);
        assert(join(ts.drop_first(), sep) == ts[1]);
    } else {
        lemma_join_first(ts.drop_last(), sep);
        assert(ts.drop_last().drop_first() =~= ts.drop_first().drop_last());
        assert(ts.drop_first().last() == ts.last());
        assert(ts.drop_last()[0] == ts[0]);
    }
}

/// The entries from the `i`th on as the reader sees them, each followed by a comma, the
/// last by the closing brace.
pub open spec fn rest_text(cs: Seq<Seq<char>>, i: int) -> Seq<char>
    decreases cs.len() - i,
{
    if i < 0 || i >= cs.len() {
        Seq::empty()
    } else if i + 1 >= cs.len() {
        cs[i] + seq!['}']
    } else {
        cs[i] + seq![','] + rest_text(cs, i + 1)
    }
}

/// The joined entries and the closing brace are the rest from the first entry on.
proof fn lemma_rest_text(cs: Seq<Seq<char>>)
    requires
        cs.len() > 0,
    ensures
        join(cs, seq![',']) + seq!['}'] == rest_text(cs, 0),
    decreases cs.len(),
{
    if cs.len() == 1 {
        assert(join(cs, seq![',']) == cs[0]);
    } else {
        lemma_join_first(cs, seq![',']);
        lemma_rest_text(cs.drop_first());
        lemma_rest_text_shift(cs, 0);
    }
}

/// The rest of the entries is the same counted from the second one.
proof fn lemma_rest_text_shift(cs: Seq<Seq<char>>, i: int)
    requires
        0 <= i < cs.len() - 1,
    ensures
        rest_text(cs.drop_first(), i) == rest_text(cs, i + 1),
    decreases cs.len() - i,
{
    if i + 2 < cs.len() {
        lemma_rest_text_shift(cs, i + 1);
    }
}

/// The characters of a plain value: at least one, none a comma or a brace, and the first
/// no opening bracket.
proof fn lemma_plain_value_chars(d: (Seq<char>, JsonType))
    requires
        plain_value(d),
    ensures
        d.0.len() > 0,
        d.0[0] != '[' && d.0[0] != '{',
        forall|j: int| 0 <= j < d.0.len() ==> d.0[j] != ',' && d.0[j] != '{' && d.0[j] != '}',
{
    let v = d.0;
    if d.1 == JsonType::String {
        assert forall|j: int| 0 <= j < v.len() implies v[j] != ',' && v[j] != '{' && v[j] != '}' by {
            if 1 <= j < v.len() - 1 {
                assert(plain_value_char(v[j]));
            }
        }
    } else {
        assert(plain_value_char(v[0]));
        assert forall|j: int| 0 <= j < v.len() implies v[j] != ',' && v[j] != '{' && v[j] != '}' by {
            assert(plain_value_char(v[j]));
        }
    }
}

/// Where the key and the colon of a line are found, after a prefix without quotes or colons.
proof fn lemma_key_and_colon(d: Seq<char>, pl: int, k: Seq<char>)
    requires
        0 <= pl,
        pl + k.len() + 3 <= d.len(),
        plain_key(k),
        forall|j: int| 0 <= j < pl ==> d[j] != '"' && d[j] != ':',
        d.subrange(pl, pl + k.len() + 3) == seq!['"'] + k + seq!['"', ':'],
    ensures
        key_position(d) == Ok::<(int, int), JsonError>((pl + 1, k.len() as int)),
        d.subrange(pl + 1, pl + 1 + k.len()) == k,
        find_char(d, ':') == Some(pl + k.len() + 2),
{
    let w = seq!['"'] + k + seq!['"', ':'];
    let sub = d.subrange(pl, pl + k.len() + 3);
    assert forall|j: int| 0 <= j < k.len() + 3 implies d[pl + j] == w[j] by {
        assert(sub[j] == d[pl + j]);
    }
    assert(sub[0] == d[pl]);
    assert(w[0] == '"');
    assert(d[pl] == '"');
    lemma_find_char_at(d, '"', 0, pl);
    assert(d[pl + 1 + k.len()] == w[k.len() as int + 1]);
    assert forall|j: int| pl + 1 <= j < pl + 1 + k.len() implies d[j] != '"' by {
        assert(d[j] == w[j - pl]);
        assert(w[j - pl] == k[j - pl - 1]);
    }
    lemma_find_char_at(d, '"', pl + 1, pl + 1 + k.len());
    assert(d.subrange(pl + 1, pl + 1 + k.len()) =~= k) by {
        assert forall|j: int| 0 <= j < k.len() implies d[pl + 1 + j] == k[j] by {
            assert(d[pl + 1 + j] == w[j + 1]);
        }
    }
    assert(d[pl + k.len() + 2] == w[k.len() as int + 2]);
    assert forall|j: int| 0 <= j < pl + k.len() + 2 implies d[j] != ':' by {
        if pl <= j {
            assert(d[j] == w[j - pl]);
            if pl + 1 <= j < pl + 1 + k.len() {
                assert(w[j - pl] == k[j - pl - 1]);
            }
        }
    }
    lemma_find_char_at(d, ':', 0, pl + k.len() + 2);
}

/// Where a plain value ends: before the comma that starts the next key, or before the
/// closing brace.
proof fn lemma_value_end_plain(v: Seq<char>, tail: Seq<char>)
    requires
        v.len() > 0,
        v[0] != '[' && v[0] != '{',
        forall|j: int| 0 <= j < v.len() ==> v[j] != ',' && v[j] != '{' && v[j] != '}',
        tail == seq!['}'] || (tail.len() >= 2 && tail[0] == ',' && tail[1] == '"'),
    ensures
        value_end(v + tail, seq![',', '"'], false) == Ok::<int, JsonError>(v.len() as int),
{
    let t = v + tail;
    let pat = seq![',', '"'];
    assert(t[0] == v[0]);
    if tail == seq!['}'] {
        assert forall|j: int| 0 <= j implies !occurs_at(t, pat, j) by {
            if occurs_at(t, pat, j) {
                assert(t.subrange(j, j + 2)[0] == t[j]);
                assert(t[j] == ',');
                if j >= v.len() {
                    assert(t[j] == tail[j - v.len()]);
                }
            }
        }
        lemma_find_seq_none(t, pat, 0);
        assert forall|j: int| 0 <= j < t.len() implies t[j] != '{' by {
            if j >= v.len() {
                assert(t[j] == tail[j - v.len()]);
            }
        }
        lemma_find_char_none(t, '{', 0);
        assert(t[v.len() as int] == '}');
        lemma_find_char_at(t, '}', 0, v.len() as int);
    } else {
        assert(t.subrange(v.len() as int, v.len() as int + 2) =~= pat);
        assert forall|j: int| 0 <= j < v.len() implies !occurs_at(t, pat, j) by {
            if occurs_at(t, pat, j) {
                assert(t.subrange(j, j + 2)[0] == t[j]);
            }
        }
        lemma_find_seq_at(t, pat, 0, v.len() as int);
    }
}

/// Reading the line of the `i`th plain entry, after the opening brace `p` for the first:
/// its key and value come back, and what is left is the rest after it.
#[verifier::spinoff_prover]
#[verifier::rlimit(40)]
proof fn lemma_line_step(entries: Seq<(Seq<char>, (Seq<char>, JsonType))>, i: int, p: Seq<char>)
    requires
        plain_entries(entries),
        0 <= i < entries.len(),
        p == seq!['{'] || p == Seq::<char>::empty(),
    ensures
        ({
            let cs = clean_entries(entries);
            let d = p + rest_text(cs, i);
            let e = entries[i];
            let pe = p.len() as int + e.0.len() as int + 3 + e.1.0.len() as int;
            &&& line(d) == Ok::<(Seq<char>, Seq<char>, int), JsonError>((e.0, e.1.0, pe))
            &&& pe + 1 <= d.len()
            &&& d.subrange(pe + 1, d.len() as int) == rest_text(cs, i + 1)
        }),
{
    let cs = clean_entries(entries);
    let n = entries.len();
    let e = entries[i];
    let k = e.0;
    let v = e.1.0;
    assert(plain_key(entries[i].0));
    lemma_plain_value_chars(e.1);
    let tail = if i + 1 < n {
        seq![','] + rest_text(cs, i + 1)
    } else {
        seq!['}']
    };
    if i + 1 < n {
        assert(plain_key(entries[i + 1].0));
        assert(cs[i + 1] == clean_entry(entries[i + 1]));
        assert(rest_text(cs, i + 1)[0] == '"');
        assert(tail[1] == rest_text(cs, i + 1)[0]);
    }
    assert(cs[i] == clean_entry(e));
    assert(rest_text(cs, i) == cs[i] + tail);
    let d = p + rest_text(cs, i);
    let pl = p.len() as int;
    assert(d =~= p + (seq!['"'] + k + seq!['"', ':']) + (v + tail));
    assert(d.subrange(pl, pl + k.len() + 3) =~= seq!['"'] + k + seq!['"', ':']);
    lemma_key_and_colon(d, pl, k);
    let st = pl + k.len() + 2;
    let t = d.subrange(st + 1, d.len() as int);
    assert(t =~= v + tail);
    lemma_value_end_plain(v, tail);
    assert(value_position(d) == Ok::<(int, int), JsonError>((st + 1, v.len() as int)));
    assert(d.subrange(st + 1, st + 1 + v.len()) =~= v);
    let pe = st + 1 + v.len();
    assert(d.subrange(pe + 1, d.len() as int) =~= rest_text(cs, i + 1));
}

/// Storing a key larger than every key of a sorted list puts it at the end.
pub proof fn lemma_insert_entry_last(
    entries: Seq<(Seq<char>, (Seq<char>, JsonType))>,
    k: Seq<char>,
    v: (Seq<char>, JsonType),
)
    requires
        forall|j: int| 0 <= j < entries.len() ==> seq_lt(#[trigger] entries[j].0, k),
    ensures
        insert_entry(entries, k, v) == entries.push((k, v)),
{
    if exists|j: int| 0 <= j < entries.len() && #[trigger] entries[j].0 == k {
        let j = choose|j: int| 0 <= j < entries.len() && #[trigger] entries[j].0 == k;
        lemma_seq_lt_irreflexive(k);
        assert(seq_lt(entries[j].0, k));
    }
    assert(lookup(entries, k) is None);
    assert(is_insert_pos(entries, k, entries.len() as int));
    let p = insert_pos(entries, k);
    assert(is_insert_pos(entries, k, p));
    if p < entries.len() {
        assert(seq_lt(entries[p].0, k));
    }
    assert(p == entries.len());
    assert(entries.insert(p, (k, v)) =~= entries.push((k, v)));
}

/// Reading the plain entries from the `i`th on, with the ones before already read, gives
/// all of them.
proof fn lemma_parse_rest(entries: Seq<(Seq<char>, (Seq<char>, JsonType))>, i: int)
    requires
        entries.len() > 0,
        plain_entries(entries),
        keys_sorted(entries),
        0 <= i <= entries.len(),
    ensures
        parse_pairs(
            if i == 0 {
                seq!['{'] + rest_text(clean_entries(entries), 0)
            } else {
                rest_text(clean_entries(entries), i)
            },
            entries.take(i),
        ) == Outcome::Done(entries),
    decreases entries.len() - i,
{
    let cs = clean_entries(entries);
    if i == entries.len() {
        assert(rest_text(cs, i) =~= Seq::<char>::empty());
        assert(entries.take(i) =~= entries);
    } else {
        let p = if i == 0 {
            seq!['{']
        } else {
            Seq::<char>::empty()
        };
        let d = p + rest_text(cs, i);
        if i > 0 {
            assert(d =~= rest_text(cs, i));
        }
        lemma_line_step(entries, i, p);
        let e = entries[i];
        assert(plain_key(entries[i].0));
        let pe = p.len() as int + e.0.len() as int + 3 + e.1.0.len() as int;
        assert(type_of_text(e.1.0) == Ok::<JsonType, JsonError>(e.1.1));
        assert(d.len() > 0);
        assert forall|j: int| 0 <= j < entries.take(i).len() implies seq_lt(
            #[trigger] entries.take(i)[j].0,
            e.0,
        ) by {
            assert(entries.take(i)[j] == entries[j]);
        }
        lemma_insert_entry_last(entries.take(i), e.0, e.1);
        assert(entries.take(i).push((e.0, e.1)) =~= entries.take(i + 1));
        lemma_parse_rest(entries, i + 1);
        assert(parse_pairs(d, entries.take(i)) == parse_pairs(
            d.subrange(pe + 1, d.len() as int),
            insert_entry(entries.take(i), e.0, (e.1.0, e.1.1)),
        ));
    }
}

/// An object of plain scalar entries, written as text, reads back as the same entries: keys
/// without quotes, backslashes or colons, and values whose text shows their type, made of
/// characters other than quotes (but a string's own), backslashes, braces, opening brackets
/// and commas, and without white space outside strings.
pub proof fn lemma_plain_object_roundtrip(entries: Seq<(Seq<char>, (Seq<char>, JsonType))>)
    requires
        keys_sorted(entries),
        plain_entries(entries),
    ensures
        render_entries(entries, 0, true) is Some,
        parse_object(object_text(render_entries(entries, 0, true).unwrap(), 0, true))
            == Outcome::Done(entries),
{
    lemma_render_scalars(entries);
    let text = object_text(entry_texts(entries), 0, true);
    if entries.len() == 0 {
        assert(entry_texts(entries).len() == 0);
        assert(text == seq!['{', '}']);
        assert(clean_from(text, 2, false, false) =~= Seq::<char>::empty());
        assert(clean_from(text, 1, false, false) =~= seq!['}']);
        assert(clean_from(text, 0, false, false) =~= seq!['{', '}']);
        assert("{}"@ =~= seq!['{', '}']) by {
            reveal_strlit("{}");
        }
        assert(entries =~= Seq::<(Seq<char>, (Seq<char>, JsonType))>::empty());
    } else {
        let cs = clean_entries(entries);
        lemma_clean_object(entries);
        lemma_rest_text(cs);
        assert(clean(text) =~= seq!['{'] + rest_text(cs, 0));
        assert(plain_key(entries[0].0));
        assert(cs[0] == clean_entry(entries[0]));
        assert(clean(text).len() > 2);
        assert("{}"@ =~= seq!['{', '}']) by {
            reveal_strlit("{}");
        }
        lemma_parse_rest(entries, 0);
        assert(entries.take(0) =~= Seq::<(Seq<char>, (Seq<char>, JsonType))>::empty());
    }
}


} // verus!
