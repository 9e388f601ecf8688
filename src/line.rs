//! Classification and slicing of single input lines.
use vstd::prelude::*;

verus! {

/// A line that contributes nothing: empty, or opening with `#` or `;`.
pub open spec fn skipped(l: Seq<char>) -> bool {
    l.len() == 0 || l[0] == '#' || l[0] == ';'
}

/// A line whose syntax errors are to be passed over: it opens with `-`.
pub open spec fn ignores_errors(l: Seq<char>) -> bool {
    l.len() > 0 && l[0] == '-'
}

/// Position of the first `c` in `s`, or `s.len()` when there is none.
pub open spec fn first_index(s: Seq<char>, c: char) -> int
    decreases s.len(),
{
    if s.len() == 0 {
        0
    } else if s[0] == c {
        0
    } else {
        1 + first_index(s.drop_first(), c)
    }
}

/// The part of `s` before its first `c` (all of `s` when there is none).
pub open spec fn before_first(s: Seq<char>, c: char) -> Seq<char> {
    s.take(first_index(s, c))
}

/// The usable part of a line: cut at the first `#`, then at the first `;`.
pub open spec fn strip_comment(l: Seq<char>) -> Seq<char> {
    before_first(before_first(l, '#'), ';')
}

/// Number of occurrences of `c` in `s`.
pub open spec fn count_char(s: Seq<char>, c: char) -> nat
    decreases s.len(),
{
    if s.len() == 0 {
        0
    } else {
        count_char(s.drop_last(), c) + if s.last() == c { 1nat } else { 0nat }
    }
}

pub proof fn lemma_first_index(s: Seq<char>, c: char, i: int)
    requires
        0 <= i <= s.len(),
        forall|j: int| 0 <= j < i ==> s[j] != c,
        i == s.len() || s[i] == c,
    ensures
        first_index(s, c) == i,
    decreases s.len(),
{
    if s.len() > 0 && s[0] != c {
        assert forall|j: int| 0 <= j < i - 1 implies s.drop_first()[j] != c by {
            assert(s[j + 1] != c);
        }
        lemma_first_index(s.drop_first(), c, i - 1);
    }
}

pub proof fn lemma_first_index_bounds(s: Seq<char>, c: char)
    ensures
        0 <= first_index(s, c) <= s.len(),
        first_index(s, c) < s.len() ==> s[first_index(s, c)] == c,
        forall|j: int| 0 <= j < first_index(s, c) ==> s[j] != c,
        first_index(s, c) == s.len() ==> count_char(s, c) == 0,
    decreases s.len(),
{
    lemma_first_index_scan(s, c);
    if first_index(s, c) == s.len() {
        lemma_count_char_zero(s, c);
    }
}

proof fn lemma_first_index_scan(s: Seq<char>, c: char)
    ensures
        0 <= first_index(s, c) <= s.len(),
        first_index(s, c) < s.len() ==> s[first_index(s, c)] == c,
        forall|j: int| 0 <= j < first_index(s, c) ==> s[j] != c,
    decreases s.len(),
{
    if s.len() > 0 && s[0] != c {
        lemma_first_index_scan(s.drop_first(), c);
        assert forall|j: int| 0 <= j < first_index(s, c) implies s[j] != c by {
            if j > 0 {
                assert(s[j] == s.drop_first()[j - 1]);
            }
        }
    }
}

/// Index of the first `c` in `s`, or `s.len()` when there is none.
pub fn find_char(s: &str, c: char) -> (r: usize)
    ensures
        r == first_index(s@, c),
{
    let n = s.unicode_len();
    let mut i: usize = 0;
    while i < n
        invariant
            n == s@.len(),
            i <= n,
            forall|j: int| 0 <= j < i ==> s@[j] != c,
        decreases n - i,
    {
        if s.get_char(i) == c {
            proof {
                lemma_first_index(s@, c, i as int);
            }
            return i;
        }
        i = i + 1;
    }
    proof {
        lemma_first_index(s@, c, i as int);
    }
    i
}

/// Number of occurrences of `c` in `s`.
pub fn count_of(s: &str, c: char) -> (r: usize)
    ensures
        r == count_char(s@, c),
{
    let n = s.unicode_len();
    let mut i: usize = 0;
    let mut k: usize = 0;
    while i < n
        invariant
            n == s@.len(),
            i <= n,
            k <= i,
            k == count_char(s@.take(i as int), c),
        decreases n - i,
    {
        assert(s@.take(i + 1).drop_last() =~= s@.take(i as int));
        if s.get_char(i) == c {
            k = k + 1;
        }
        i = i + 1;
    }
    assert(s@.take(n as int) =~= s@);
    k
}

/// True when the line contributes nothing: it is empty or opens with `#` or `;`.
pub fn should_skip(line: &str) -> (r: bool)
    ensures
        r == skipped(line@),
{
    if line.unicode_len() == 0 {
        true
    } else {
        let c = line.get_char(0);
        c == '#' || c == ';'
    }
}

/// True when the line opens with `-`, the mark that silences its syntax errors.
pub fn ignore_error(line: &str) -> (r: bool)
    ensures
        r == ignores_errors(line@),
{
    line.unicode_len() > 0 && line.get_char(0) == '-'
}

/// The usable part of a line: everything before its first `#`, and within that,
/// everything before the first `;`.
pub fn retrieve_key_value_str(line: &str) -> (r: &str)
    ensures
        r@ == strip_comment(line@),
{
    let h = find_char(line, '#');
    proof {
        lemma_first_index_bounds(line@, '#');
    }
    let head = line.substring_char(0, h);
    let s = find_char(head, ';');
    proof {
        lemma_first_index_bounds(head@, ';');
    }
    head.substring_char(0, s)
}

/// Unicode White_Space, the set that `char::is_whitespace` tests.
pub open spec fn is_space(c: char) -> bool {
    let u = c as u32;
    (9 <= u <= 13) || u == 32 || u == 0x85 || u == 0xa0 || u == 0x1680 || (0x2000 <= u
        <= 0x200a) || u == 0x2028 || u == 0x2029 || u == 0x202f || u == 0x205f || u == 0x3000
}

pub open spec fn trim_start(s: Seq<char>) -> Seq<char>
    decreases s.len(),
{
    if s.len() > 0 && is_space(s[0]) {
        trim_start(s.drop_first())
    } else {
        s
    }
}

pub open spec fn trim_end(s: Seq<char>) -> Seq<char>
    decreases s.len(),
{
    if s.len() > 0 && is_space(s.last()) {
        trim_end(s.drop_last())
    } else {
        s
    }
}

/// `s` without its leading and trailing white space.
pub open spec fn trim(s: Seq<char>) -> Seq<char> {
    trim_end(trim_start(s))
}

pub proof fn lemma_trim_start(s: Seq<char>, i: int)
    requires
        0 <= i <= s.len(),
        forall|j: int| 0 <= j < i ==> is_space(s[j]),
        i == s.len() || !is_space(s[i]),
    ensures
        trim_start(s) == s.skip(i),
    decreases s.len(),
{
    if i == 0 {
        assert(s.skip(0) =~= s);
    } else {
        assert forall|j: int| 0 <= j < i - 1 implies is_space(s.drop_first()[j]) by {
            assert(is_space(s[j + 1]));
        }
        lemma_trim_start(s.drop_first(), i - 1);
        assert(s.drop_first().skip(i - 1) =~= s.skip(i));
    }
}

pub proof fn lemma_trim_end(s: Seq<char>, k: int)
    requires
        0 <= k <= s.len(),
        forall|j: int| k <= j < s.len() ==> is_space(s[j]),
        k == 0 || !is_space(s[k - 1]),
    ensures
        trim_end(s) == s.take(k),
    decreases s.len(),
{
    if k == s.len() {
        assert(s.take(k) =~= s);
    } else {
        lemma_trim_end(s.drop_last(), k);
        assert(s.drop_last().take(k) =~= s.take(k));
    }
}

/// True for the characters that `trim` removes.
pub fn is_space_char(c: char) -> (r: bool)
    ensures
        r == is_space(c),
{
    let u = c as u32;
    (9 <= u && u <= 13) || u == 32 || u == 0x85 || u == 0xa0 || u == 0x1680 || (0x2000 <= u && u
        <= 0x200a) || u == 0x2028 || u == 0x2029 || u == 0x202f || u == 0x205f || u == 0x3000
}

/// `s` without its leading and trailing white space.
pub fn trim_str(s: &str) -> (r: &str)
    ensures
        r@ == trim(s@),
{
    let n = s.unicode_len();
    let mut i: usize = 0;
    while i < n && is_space_char(s.get_char(i))
        invariant
            n == s@.len(),
            i <= n,
            forall|j: int| 0 <= j < i ==> is_space(s@[j]),
        decreases n - i,
    {
        i = i + 1;
    }
    proof {
        lemma_trim_start(s@, i as int);
    }
    let mut k: usize = n;
    while k > i && is_space_char(s.get_char(k - 1))
        invariant
            n == s@.len(),
            i <= k <= n,
            forall|j: int| k <= j < n ==> is_space(s@[j]),
        decreases k,
    {
        k = k - 1;
    }
    proof {
        let t = s@.skip(i as int);
        assert forall|j: int| k - i <= j < t.len() implies is_space(t[j]) by {
            assert(t[j] == s@[j + i]);
        }
        if k > i {
            assert(t[k - i - 1] == s@[k - 1]);
        }
        lemma_trim_end(t, k - i);
        assert(t.take(k - i) =~= s@.subrange(i as int, k as int));
    }
    s.substring_char(i, k)
}

/// Whether `s` holds a `->` at position `i`.
pub open spec fn arrow_at(s: Seq<char>, i: int) -> bool {
    0 <= i && i + 1 < s.len() && s[i] == '-' && s[i + 1] == '>'
}

/// Number of `->` in `s`.
pub open spec fn count_arrows(s: Seq<char>) -> nat
    decreases s.len(),
{
    if s.len() < 2 {
        0
    } else {
        count_arrows(s.drop_last()) + if arrow_at(s, s.len() - 2) { 1nat } else { 0nat }
    }
}

/// Position of the first `->` in `s`, or `s.len()` when there is none.
pub open spec fn first_arrow(s: Seq<char>) -> int
    decreases s.len(),
{
    if s.len() < 2 {
        s.len() as int
    } else if arrow_at(s, 0) {
        0
    } else {
        1 + first_arrow(s.drop_first())
    }
}

pub proof fn lemma_first_arrow(s: Seq<char>, i: int)
    requires
        0 <= i <= s.len(),
        forall|j: int| 0 <= j < i ==> !arrow_at(s, j),
        i == s.len() || arrow_at(s, i),
        i == s.len() - 1 ==> false,
    ensures
        first_arrow(s) == i,
    decreases s.len(),
{
    if s.len() >= 2 && !arrow_at(s, 0) {
        assert forall|j: int| 0 <= j < i - 1 implies !arrow_at(s.drop_first(), j) by {
            assert(!arrow_at(s, j + 1));
        }
        if i < s.len() {
            assert(arrow_at(s.drop_first(), i - 1));
        }
        lemma_first_arrow(s.drop_first(), i - 1);
    }
}

pub proof fn lemma_first_arrow_bounds(s: Seq<char>)
    ensures
        0 <= first_arrow(s) <= s.len(),
        first_arrow(s) < s.len() ==> arrow_at(s, first_arrow(s)),
        forall|j: int| 0 <= j < first_arrow(s) ==> !arrow_at(s, j),
        first_arrow(s) == s.len() ==> count_arrows(s) == 0,
    decreases s.len(),
{
    if s.len() >= 2 && !arrow_at(s, 0) {
        lemma_first_arrow_bounds(s.drop_first());
        assert forall|j: int| 0 <= j < first_arrow(s) implies !arrow_at(s, j) by {
            if j > 0 {
                assert(!arrow_at(s.drop_first(), j - 1));
            }
        }
    }
    if first_arrow(s) == s.len() {
        lemma_count_arrows_zero(s);
    }
}

pub proof fn lemma_count_arrows_zero(s: Seq<char>)
    requires
        forall|j: int| 0 <= j < s.len() ==> !arrow_at(s, j),
    ensures
        count_arrows(s) == 0,
    decreases s.len(),
{
    if s.len() >= 2 {
        assert forall|j: int| 0 <= j < s.len() - 1 implies !arrow_at(s.drop_last(), j) by {
            assert(!arrow_at(s, j));
        }
        lemma_count_arrows_zero(s.drop_last());
    }
}

pub proof fn lemma_count_char_zero(s: Seq<char>, c: char)
    requires
        forall|j: int| 0 <= j < s.len() ==> s[j] != c,
    ensures
        count_char(s, c) == 0,
    decreases s.len(),
{
    if s.len() > 0 {
        assert forall|j: int| 0 <= j < s.len() - 1 implies s.drop_last()[j] != c by {
            assert(s[j] != c);
        }
        lemma_count_char_zero(s.drop_last(), c);
    }
}

/// Position of the first `->` in `s`, or its length when there is none.
pub fn find_arrow(s: &str) -> (r: usize)
    ensures
        r == first_arrow(s@),
{
    let n = s.unicode_len();
    if n < 2 {
        proof {
            lemma_first_arrow(s@, n as int);
        }
        return n;
    }
    let mut i: usize = 0;
    while i + 1 < n
        invariant
            n == s@.len(),
            n >= 2,
            i + 1 <= n,
            forall|j: int| 0 <= j < i ==> !arrow_at(s@, j),
        decreases n - i,
    {
        if s.get_char(i) == '-' && s.get_char(i + 1) == '>' {
            proof {
                lemma_first_arrow(s@, i as int);
            }
            return i;
        }
        i = i + 1;
    }
    proof {
        assert forall|j: int| 0 <= j < n implies !arrow_at(s@, j) by {
            if j == n - 1 {
                assert(!arrow_at(s@, j));
            }
        }
        lemma_first_arrow(s@, n as int);
    }
    n
}

/// Number of `->` in `s`.
pub fn count_arrows_of(s: &str) -> (r: usize)
    ensures
        r == count_arrows(s@),
{
    let n = s.unicode_len();
    if n < 2 {
        return 0;
    }
    let mut i: usize = 0;
    let mut k: usize = 0;
    while i + 1 < n
        invariant
            n == s@.len(),
            n >= 2,
            i + 1 <= n,
            k <= i,
            k == count_arrows(s@.take(i + 1)),
        decreases n - i,
    {
        let t = Ghost(s@.take(i + 2));
        assert(t@.drop_last() =~= s@.take(i + 1));
        assert(arrow_at(t@, i as int) == arrow_at(s@, i as int));
        if s.get_char(i) == '-' && s.get_char(i + 1) == '>' {
            k = k + 1;
        }
        i = i + 1;
    }
    assert(s@.take(i + 1) =~= s@);
    k
}

} // verus!
