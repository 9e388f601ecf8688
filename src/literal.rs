//! Recognisers for the literals that the schema's type tags name.
use vstd::prelude::*;
use crate::line::{count_char, count_of, find_char, first_index, lemma_first_index_bounds};

verus! {

/// The largest magnitude that any integer tag admits (`-2^31` and `u32::MAX` lie below).
pub const DIGITS_BOUND: u64 = 0x1_0000_0000;

pub open spec fn is_digit(c: char) -> bool {
    48 <= (c as u32) <= 57
}

pub open spec fn all_digits(d: Seq<char>) -> bool {
    forall|i: int| 0 <= i < d.len() ==> is_digit(#[trigger] d[i])
}

/// The number that a run of decimal digits writes.
pub open spec fn digits_value(d: Seq<char>) -> nat
    decreases d.len(),
{
    if d.len() == 0 {
        0
    } else {
        10 * digits_value(d.drop_last()) + ((d.last() as u32) - 48) as nat
    }
}

/// `s` without one leading `+`.
pub open spec fn plus_dropped(s: Seq<char>) -> Seq<char> {
    if s.len() > 0 && s[0] == '+' {
        s.drop_first()
    } else {
        s
    }
}

/// `s` without one leading `+` or `-`.
pub open spec fn sign_dropped(s: Seq<char>) -> Seq<char> {
    if s.len() > 0 && (s[0] == '+' || s[0] == '-') {
        s.drop_first()
    } else {
        s
    }
}

/// A run of one or more digits whose value is at most `max`.
pub open spec fn digits_within(d: Seq<char>, max: int) -> bool {
    d.len() > 0 && all_digits(d) && digits_value(d) <= max
}

/// What `str::parse::<bool>` accepts.
pub open spec fn is_bool_literal(s: Seq<char>) -> bool {
    s == "true"@ || s == "false"@
}

/// What `str::parse::<u32>` accepts: an optional `+`, then digits worth at most `u32::MAX`.
pub open spec fn is_u32_literal(s: Seq<char>) -> bool {
    digits_within(plus_dropped(s), u32::MAX as int)
}

/// What `str::parse::<i32>` accepts: an optional sign, then digits whose signed
/// value lies in `i32`.
pub open spec fn is_i32_literal(s: Seq<char>) -> bool {
    if s.len() > 0 && s[0] == '-' {
        digits_within(s.drop_first(), 0x8000_0000)
    } else {
        digits_within(plus_dropped(s), i32::MAX as int)
    }
}

/// `c` is `w`, or the upper-case form of the lower-case ASCII letter `w`.
pub open spec fn same_letter(c: char, w: char) -> bool {
    c == w || (97 <= (w as u32) <= 122 && (c as u32) + 32 == (w as u32))
}

/// `s` spells the lower-case word `w`, letters in either case.
pub open spec fn word_ci(s: Seq<char>, w: Seq<char>) -> bool {
    s.len() == w.len() && forall|i: int| 0 <= i < s.len() ==> same_letter(s[i], w[i])
}

/// The named values of a float: infinity and not-a-number.
pub open spec fn is_special(b: Seq<char>) -> bool {
    word_ci(b, "inf"@) || word_ci(b, "infinity"@) || word_ci(b, "nan"@)
}

/// Digits with at most one `.`, and at least one digit.
pub open spec fn is_mantissa(m: Seq<char>) -> bool {
    &&& forall|i: int| 0 <= i < m.len() ==> is_digit(m[i]) || m[i] == '.'
    &&& count_char(m, '.') <= 1
    &&& count_char(m, '.') < m.len()
}

/// What follows the `e` of an exponent: an optional sign, then one or more digits.
pub open spec fn is_exponent(x: Seq<char>) -> bool {
    let d = sign_dropped(x);
    d.len() > 0 && all_digits(d)
}

/// Position of the first `e` or `E`, or the length when there is none.
pub open spec fn exp_index(b: Seq<char>) -> int {
    let e = first_index(b, 'e');
    let u = first_index(b, 'E');
    if e <= u {
        e
    } else {
        u
    }
}

/// A decimal number: a mantissa, then optionally `e` or `E` and an exponent.
pub open spec fn is_number(b: Seq<char>) -> bool {
    let k = exp_index(b);
    if k == b.len() {
        is_mantissa(b)
    } else {
        is_mantissa(b.take(k)) && is_exponent(b.skip(k + 1))
    }
}

/// What `str::parse::<f64>` accepts: an optional sign, then `inf`, `infinity` or
/// `nan` in any case, or a decimal number.
pub open spec fn is_f64_literal(s: Seq<char>) -> bool {
    let b = sign_dropped(s);
    is_special(b) || is_number(b)
}

/// Whether a value stored under a key fits the type that `tag` names; an unknown
/// tag fits nothing.
pub open spec fn type_accepts(tag: Seq<char>, value: Seq<char>) -> bool {
    if tag == "string"@ {
        true
    } else if tag == "bool"@ {
        is_bool_literal(value)
    } else if tag == "int"@ {
        is_i32_literal(value)
    } else if tag == "uint"@ {
        is_u32_literal(value)
    } else if tag == "float"@ {
        is_f64_literal(value)
    } else {
        false
    }
}

pub proof fn lemma_digits_grow(d: Seq<char>, k: int)
    requires
        0 <= k <= d.len(),
    ensures
        digits_value(d.take(k)) <= digits_value(d),
    decreases d.len(),
{
    if k < d.len() {
        assert(d.drop_last().take(k) =~= d.take(k));
        lemma_digits_grow(d.drop_last(), k);
    } else {
        assert(d.take(k) =~= d);
    }
}

/// Whether two strings hold the same characters.
pub fn same_text(a: &str, b: &str) -> (r: bool)
    ensures
        r == (a@ == b@),
{
    let n = a.unicode_len();
    if n != b.unicode_len() {
        return false;
    }
    let mut i: usize = 0;
    while i < n
        invariant
            n == a@.len(),
            n == b@.len(),
            i <= n,
            forall|j: int| 0 <= j < i ==> a@[j] == b@[j],
        decreases n - i,
    {
        if a.get_char(i) != b.get_char(i) {
            return false;
        }
        i = i + 1;
    }
    assert(a@ =~= b@);
    true
}

/// Whether `s` spells the lower-case word `w`, letters in either case.
fn matches_word_ci(s: &str, w: &str) -> (r: bool)
    ensures
        r == word_ci(s@, w@),
{
    let n = s.unicode_len();
    if n != w.unicode_len() {
        return false;
    }
    let mut i: usize = 0;
    while i < n
        invariant
            n == s@.len(),
            n == w@.len(),
            i <= n,
            forall|j: int| 0 <= j < i ==> same_letter(s@[j], w@[j]),
        decreases n - i,
    {
        let c = s.get_char(i) as u32;
        let l = w.get_char(i) as u32;
        if !(c == l || (97 <= l && l <= 122 && c + 32 == l)) {
            return false;
        }
        i = i + 1;
    }
    true
}

/// Whether every character of `d` is a decimal digit.
fn all_digits_str(d: &str) -> (r: bool)
    ensures
        r == all_digits(d@),
{
    let n = d.unicode_len();
    let mut i: usize = 0;
    while i < n
        invariant
            n == d@.len(),
            i <= n,
            all_digits(d@.take(i as int)),
        decreases n - i,
    {
        let c = d.get_char(i) as u32;
        if !(48 <= c && c <= 57) {
            assert(!is_digit(d@[i as int]));
            return false;
        }
        assert(d@.take(i + 1)[i as int] == d@[i as int]);
        i = i + 1;
    }
    assert(d@.take(n as int) =~= d@);
    true
}

/// The value of the digits of `d`, when it is a non-empty run of digits whose
/// value is at most `DIGITS_BOUND`.
fn read_digits(d: &str) -> (r: Option<u64>)
    ensures
        r matches Some(v) ==> digits_within(d@, DIGITS_BOUND as int) && v == digits_value(d@),
        r is None ==> !digits_within(d@, DIGITS_BOUND as int),
{
    let n = d.unicode_len();
    if n == 0 {
        return None;
    }
    let mut i: usize = 0;
    let mut acc: u64 = 0;
    while i < n
        invariant
            n == d@.len(),
            i <= n,
            all_digits(d@.take(i as int)),
            acc == digits_value(d@.take(i as int)),
            acc <= DIGITS_BOUND,
        decreases n - i,
    {
        let c = d.get_char(i) as u32;
        if !(48 <= c && c <= 57) {
            assert(!is_digit(d@[i as int]));
            return None;
        }
        let next = acc * 10 + (c - 48) as u64;
        assert(d@.take(i + 1).drop_last() =~= d@.take(i as int));
        assert(d@.take(i + 1)[i as int] == d@[i as int]);
        if next > DIGITS_BOUND {
            proof {
                if all_digits(d@) {
                    lemma_digits_grow(d@, i + 1);
                }
            }
            return None;
        }
        acc = next;
        i = i + 1;
    }
    assert(d@.take(n as int) =~= d@);
    Some(acc)
}

/// Whether `s` reads as a boolean: `true` or `false`.
pub fn is_bool_str(s: &str) -> (r: bool)
    ensures
        r == is_bool_literal(s@),
{
    same_text(s, "true") || same_text(s, "false")
}

/// Whether `s` reads as an unsigned 32-bit integer.
pub fn is_u32_str(s: &str) -> (r: bool)
    ensures
        r == is_u32_literal(s@),
{
    let n = s.unicode_len();
    let from: usize = if n > 0 && s.get_char(0) == '+' { 1 } else { 0 };
    let d = s.substring_char(from, n);
    assert(d@ =~= plus_dropped(s@));
    match read_digits(d) {
        Some(v) => v <= 0xffff_ffff,
        None => false,
    }
}

/// Whether `s` reads as a signed 32-bit integer.
pub fn is_i32_str(s: &str) -> (r: bool)
    ensures
        r == is_i32_literal(s@),
{
    let n = s.unicode_len();
    if n > 0 && s.get_char(0) == '-' {
        let d = s.substring_char(1, n);
        assert(d@ =~= s@.drop_first());
        match read_digits(d) {
            Some(v) => v <= 0x8000_0000,
            None => false,
        }
    } else {
        let from: usize = if n > 0 && s.get_char(0) == '+' { 1 } else { 0 };
        let d = s.substring_char(from, n);
        assert(d@ =~= plus_dropped(s@));
        match read_digits(d) {
            Some(v) => v <= 0x7fff_ffff,
            None => false,
        }
    }
}

/// Whether `m` is a mantissa: digits with at most one `.`, and at least one digit.
fn is_mantissa_str(m: &str) -> (r: bool)
    ensures
        r == is_mantissa(m@),
{
    let n = m.unicode_len();
    let mut i: usize = 0;
    while i < n
        invariant
            n == m@.len(),
            i <= n,
            forall|j: int| 0 <= j < i ==> is_digit(m@[j]) || m@[j] == '.',
        decreases n - i,
    {
        let c = m.get_char(i);
        if !((48 <= c as u32 && c as u32 <= 57) || c == '.') {
            return false;
        }
        i = i + 1;
    }
    let dots = count_of(m, '.');
    dots <= 1 && dots < n
}

/// Whether `x` is an exponent: an optional sign, then one or more digits.
fn is_exponent_str(x: &str) -> (r: bool)
    ensures
        r == is_exponent(x@),
{
    let n = x.unicode_len();
    let from: usize = if n > 0 && (x.get_char(0) == '+' || x.get_char(0) == '-') {
        1
    } else {
        0
    };
    let d = x.substring_char(from, n);
    assert(d@ =~= sign_dropped(x@));
    n > from && all_digits_str(d)
}

/// Whether `s` reads as a 64-bit float.
pub fn is_f64_str(s: &str) -> (r: bool)
    ensures
        r == is_f64_literal(s@),
{
    let n = s.unicode_len();
    let from: usize = if n > 0 && (s.get_char(0) == '+' || s.get_char(0) == '-') {
        1
    } else {
        0
    };
    let b = s.substring_char(from, n);
    assert(b@ =~= sign_dropped(s@));
    if matches_word_ci(b, "inf") || matches_word_ci(b, "infinity") || matches_word_ci(b, "nan") {
        return true;
    }
    let e = find_char(b, 'e');
    let u = find_char(b, 'E');
    proof {
        lemma_first_index_bounds(b@, 'e');
        lemma_first_index_bounds(b@, 'E');
    }
    let k = if e <= u { e } else { u };
    let m = b.unicode_len();
    if k == m {
        is_mantissa_str(b)
    } else {
        is_mantissa_str(b.substring_char(0, k)) && is_exponent_str(b.substring_char(k + 1, m))
    }
}

/// Whether `value` fits the type that `type_str` names: `string`, `bool`, `int`,
/// `uint` or `float`. An unknown type name fits nothing.
pub fn validate_type(type_str: &str, value: &str) -> (r: bool)
    ensures
        r == type_accepts(type_str@, value@),
{
    if same_text(type_str, "string") {
        true
    } else if same_text(type_str, "bool") {
        is_bool_str(value)
    } else if same_text(type_str, "int") {
        is_i32_str(value)
    } else if same_text(type_str, "uint") {
        is_u32_str(value)
    } else if same_text(type_str, "float") {
        is_f64_str(value)
    } else {
        false
    }
}

} // verus!
