//! Verified text primitives over `&str` values viewed as `Seq<char>`:
//! trimming, prefix tests, character search, splitting and substring
//! occurrence counting.

use vstd::prelude::*;
use vstd::string::*;

verus! {

/// Whitespace characters stripped from the ends of a line.
pub open spec fn is_ws_char(c: char) -> bool {
    c == ' ' || c == '\t' || c == '\r' || c == '\n'
}

/// Characters stripped from both ends of an extracted payload.
pub open spec fn is_mark_char(c: char) -> bool {
    c == '"' || c == '\\'
}

pub open spec fn ws_pred() -> spec_fn(char) -> bool {
    |c: char| is_ws_char(c)
}

pub open spec fn mark_pred() -> spec_fn(char) -> bool {
    |c: char| is_mark_char(c)
}

pub open spec fn char_pred(c: char) -> spec_fn(char) -> bool {
    |x: char| x == c
}

/// What remains of `s` after removing its longest prefix of characters
/// satisfying `p`.
pub open spec fn drop_leading(s: Seq<char>, p: spec_fn(char) -> bool) -> Seq<char>
    decreases s.len(),
{
    if s.len() > 0 && p(s[0]) {
        drop_leading(s.drop_first(), p)
    } else {
        s
    }
}

/// What remains of `s` after removing its longest suffix of characters
/// satisfying `p`.
pub open spec fn drop_trailing(s: Seq<char>, p: spec_fn(char) -> bool) -> Seq<char>
    decreases s.len(),
{
    if s.len() > 0 && p(s.last()) {
        drop_trailing(s.drop_last(), p)
    } else {
        s
    }
}

/// `s` with surrounding whitespace removed.
pub open spec fn spec_trim(s: Seq<char>) -> Seq<char> {
    drop_trailing(drop_leading(s, ws_pred()), ws_pred())
}

/// `s` with bounding quote and backslash characters removed.
pub open spec fn spec_strip_marks(s: Seq<char>) -> Seq<char> {
    drop_trailing(drop_leading(s, mark_pred()), mark_pred())
}

/// Index of the first element of `s` satisfying `p`, or `s.len()` if none does.
pub open spec fn first_where<A>(s: Seq<A>, p: spec_fn(A) -> bool) -> int
    decreases s.len(),
{
    if s.len() == 0 {
        0
    } else if p(s[0]) {
        0
    } else {
        1 + first_where(s.drop_first(), p)
    }
}

/// `s` split on every occurrence of `sep`; the separators themselves are
/// dropped.  The result always holds at least one (possibly empty) piece.
pub open spec fn spec_split(s: Seq<char>, sep: char) -> Seq<Seq<char>>
    decreases s.len(),
    via spec_split_decreases
{
    let k = first_where(s, char_pred(sep));
    if k == s.len() {
        seq![s]
    } else {
        seq![s.take(k)] + spec_split(s.skip(k + 1), sep)
    }
}

#[via_fn]
proof fn spec_split_decreases(s: Seq<char>, sep: char) {
    lemma_first_where_bounds(s, char_pred(sep));
}

/// How many times `pat` occurs in `s`, counting non-overlapping occurrences
/// from the left.
pub open spec fn count_matches(s: Seq<char>, pat: Seq<char>) -> nat
    decreases s.len(),
{
    if pat.len() == 0 {
        0
    } else if s.len() < pat.len() {
        0
    } else if pat.is_prefix_of(s) {
        1 + count_matches(s.skip(pat.len() as int), pat)
    } else {
        count_matches(s.drop_first(), pat)
    }
}

pub proof fn lemma_first_where_bounds<A>(s: Seq<A>, p: spec_fn(A) -> bool)
    ensures
        0 <= first_where(s, p) <= s.len(),
        forall|j: int| 0 <= j < first_where(s, p) ==> !p(s[j]),
        first_where(s, p) < s.len() ==> p(s[first_where(s, p)]),
    decreases s.len(),
{
    if s.len() == 0 {
    } else if p(s[0]) {
    } else {
        lemma_first_where_bounds(s.drop_first(), p);
        assert(s.drop_first() =~= s.skip(1));
        assert forall|j: int| 0 <= j < first_where(s, p) implies !p(s[j]) by {
            if j > 0 {
                assert(!p(s.skip(1)[j - 1]));
            }
        }
        if first_where(s, p) < s.len() {
            assert(p(s.skip(1)[first_where(s, p) - 1]));
        }
    }
}

/// `first_where` is pinned down by the properties of its result.
pub proof fn lemma_first_where_is<A>(s: Seq<A>, p: spec_fn(A) -> bool, i: int)
    requires
        0 <= i <= s.len(),
        forall|j: int| 0 <= j < i ==> !p(s[j]),
        i < s.len() ==> p(s[i]),
    ensures
        first_where(s, p) == i,
    decreases s.len(),
{
    if s.len() == 0 {
    } else if p(s[0]) {
        assert(i == 0);
    } else {
        assert(i > 0);
        assert(s.drop_first() =~= s.skip(1));
        assert forall|j: int| 0 <= j < i - 1 implies !p(s.skip(1)[j]) by {
            assert(s.skip(1)[j] == s[j + 1]);
        }
        if i - 1 < s.skip(1).len() {
            assert(s.skip(1)[i - 1] == s[i]);
        }
        lemma_first_where_is(s.skip(1), p, i - 1);
    }
}

pub proof fn lemma_drop_leading_is(s: Seq<char>, p: spec_fn(char) -> bool, i: int)
    requires
        0 <= i <= s.len(),
        forall|j: int| 0 <= j < i ==> p(s[j]),
        i < s.len() ==> !p(s[i]),
    ensures
        drop_leading(s, p) == s.skip(i),
    decreases i,
{
    if i == 0 {
        assert(s.skip(0) =~= s);
    } else {
        assert(p(s[0]));
        assert(s.drop_first() =~= s.skip(1));
        assert forall|j: int| 0 <= j < i - 1 implies p(s.skip(1)[j]) by {
            assert(s.skip(1)[j] == s[j + 1]);
        }
        if i - 1 < s.skip(1).len() {
            assert(s.skip(1)[i - 1] == s[i]);
        }
        lemma_drop_leading_is(s.skip(1), p, i - 1);
        assert(s.skip(1).skip(i - 1) =~= s.skip(i));
    }
}

pub proof fn lemma_drop_trailing_is(s: Seq<char>, p: spec_fn(char) -> bool, i: int)
    requires
        0 <= i <= s.len(),
        forall|j: int| i <= j < s.len() ==> p(s[j]),
        i > 0 ==> !p(s[i - 1]),
    ensures
        drop_trailing(s, p) == s.take(i),
    decreases s.len(),
{
    if i == s.len() {
        if s.len() > 0 {
            assert(!p(s.last()));
        }
        assert(s.take(s.len() as int) =~= s);
    } else {
        assert(p(s.last()));
        let t = s.take(s.len() - 1);
        assert(s.drop_last() =~= t);
        assert forall|j: int| i <= j < t.len() implies #[trigger] p(t[j]) by {
            assert(t[j] == s[j]);
        }
        lemma_drop_trailing_is(t, p, i);
        assert(s.take(s.len() - 1).take(i) =~= s.take(i));
    }
}

/// Executable test for the whitespace class.
pub fn is_ws(c: char) -> (r: bool)
    ensures
        r == is_ws_char(c),
{
    c == ' ' || c == '\t' || c == '\r' || c == '\n'
}

/// Executable test for the payload mark class.
pub fn is_mark(c: char) -> (r: bool)
    ensures
        r == is_mark_char(c),
{
    c == '"' || c == '\\'
}

/// Removes surrounding whitespace, as `spec_trim` describes.
pub fn trim_str(s: &str) -> (t: &str)
    ensures
        t@ == spec_trim(s@),
{
    let n = s.unicode_len();
    let mut a: usize = 0;
    while a < n && is_ws(s.get_char(a))
        invariant
            a <= n,
            n == s@.len(),
            forall|j: int| 0 <= j < a ==> is_ws_char(s@[j]),
        decreases n - a,
    {
        a = a + 1;
    }
    let mut b: usize = n;
    while b > a && is_ws(s.get_char(b - 1))
        invariant
            a <= b <= n,
            n == s@.len(),
            forall|j: int| b <= j < n ==> is_ws_char(s@[j]),
        decreases b,
    {
        b = b - 1;
    }
    let t = s.substring_char(a, b);
    proof {
        lemma_drop_leading_is(s@, ws_pred(), a as int);
        let mid = s@.skip(a as int);
        assert forall|j: int| b - a <= j < mid.len() implies ws_pred()(mid[j]) by {
            assert(mid[j] == s@[j + a]);
        }
        if b > a {
            assert(mid[b - a - 1] == s@[b - 1]);
        }
        lemma_drop_trailing_is(mid, ws_pred(), b - a);
        assert(mid.take(b - a) =~= s@.subrange(a as int, b as int));
    }
    t
}

/// Characters stripped from both ends of a legacy flat-format line.
pub open spec fn is_quote_semi_char(c: char) -> bool {
    c == '"' || c == ';'
}

pub open spec fn quote_semi_pred() -> spec_fn(char) -> bool {
    |c: char| is_quote_semi_char(c)
}

/// Executable test for the quote/semicolon class.
pub fn is_quote_semi(c: char) -> (r: bool)
    ensures
        r == is_quote_semi_char(c),
{
    c == '"' || c == ';'
}

/// Removes bounding quote and semicolon characters.
pub fn strip_quote_semi(s: &str) -> (t: &str)
    ensures
        t@ == drop_trailing(drop_leading(s@, quote_semi_pred()), quote_semi_pred()),
{
    let n = s.unicode_len();
    let mut a: usize = 0;
    while a < n && is_quote_semi(s.get_char(a))
        invariant
            a <= n,
            n == s@.len(),
            forall|j: int| 0 <= j < a ==> is_quote_semi_char(s@[j]),
        decreases n - a,
    {
        a = a + 1;
    }
    let mut b: usize = n;
    while b > a && is_quote_semi(s.get_char(b - 1))
        invariant
            a <= b <= n,
            n == s@.len(),
            forall|j: int| b <= j < n ==> is_quote_semi_char(s@[j]),
        decreases b,
    {
        b = b - 1;
    }
    let t = s.substring_char(a, b);
    proof {
        lemma_drop_leading_is(s@, quote_semi_pred(), a as int);
        let mid = s@.skip(a as int);
        assert forall|j: int| b - a <= j < mid.len() implies quote_semi_pred()(mid[j]) by {
            assert(mid[j] == s@[j + a]);
        }
        if b > a {
            assert(mid[b - a - 1] == s@[b - 1]);
        }
        lemma_drop_trailing_is(mid, quote_semi_pred(), b - a);
        assert(mid.take(b - a) =~= s@.subrange(a as int, b as int));
    }
    t
}

/// Removes bounding quote and backslash characters, as `spec_strip_marks`
/// describes.
pub fn strip_marks(s: &str) -> (t: &str)
    ensures
        t@ == spec_strip_marks(s@),
{
    let n = s.unicode_len();
    let mut a: usize = 0;
    while a < n && is_mark(s.get_char(a))
        invariant
            a <= n,
            n == s@.len(),
            forall|j: int| 0 <= j < a ==> is_mark_char(s@[j]),
        decreases n - a,
    {
        a = a + 1;
    }
    let mut b: usize = n;
    while b > a && is_mark(s.get_char(b - 1))
        invariant
            a <= b <= n,
            n == s@.len(),
            forall|j: int| b <= j < n ==> is_mark_char(s@[j]),
        decreases b,
    {
        b = b - 1;
    }
    let t = s.substring_char(a, b);
    proof {
        lemma_drop_leading_is(s@, mark_pred(), a as int);
        let mid = s@.skip(a as int);
        assert forall|j: int| b - a <= j < mid.len() implies mark_pred()(mid[j]) by {
            assert(mid[j] == s@[j + a]);
        }
        if b > a {
            assert(mid[b - a - 1] == s@[b - 1]);
        }
        lemma_drop_trailing_is(mid, mark_pred(), b - a);
        assert(mid.take(b - a) =~= s@.subrange(a as int, b as int));
    }
    t
}

/// Whether `pre` is a prefix of `s`.
pub fn str_starts_with(s: &str, pre: &str) -> (r: bool)
    ensures
        r == pre@.is_prefix_of(s@),
{
    let m = pre.unicode_len();
    if m > s.unicode_len() {
        return false;
    }
    let mut i: usize = 0;
    while i < m
        invariant
            i <= m,
            m == pre@.len(),
            m <= s@.len(),
            forall|j: int| 0 <= j < i ==> s@[j] == pre@[j],
        decreases m - i,
    {
        if s.get_char(i) != pre.get_char(i) {
            return false;
        }
        i = i + 1;
    }
    proof {
        assert(pre@ =~= s@.subrange(0, pre@.len() as int));
    }
    true
}

/// Whether two string slices hold the same characters.
pub fn str_eq(a: &str, b: &str) -> (r: bool)
    ensures
        r == (a@ == b@),
{
    let n = a.unicode_len();
    if n != b.unicode_len() {
        return false;
    }
    let mut i: usize = 0;
    while i < n
        invariant
            i <= n,
            n == a@.len(),
            n == b@.len(),
            forall|j: int| 0 <= j < i ==> a@[j] == b@[j],
        decreases n - i,
    {
        if a.get_char(i) != b.get_char(i) {
            return false;
        }
        i = i + 1;
    }
    proof {
        assert(a@ =~= b@);
    }
    true
}

/// First position of `c` in `s` at or after `from`, or `s`'s length if `c`
/// does not occur there.
pub fn find_char_from(s: &str, from: usize, c: char) -> (k: usize)
    requires
        from <= s@.len(),
    ensures
        from <= k <= s@.len(),
        forall|j: int| from <= j < k ==> s@[j] != c,
        k < s@.len() ==> s@[k as int] == c,
{
    let n = s.unicode_len();
    let mut k: usize = from;
    while k < n && s.get_char(k) != c
        invariant
            from <= k <= n,
            n == s@.len(),
            forall|j: int| from <= j < k ==> s@[j] != c,
        decreases n - k,
    {
        k = k + 1;
    }
    k
}

/// Whether `pat` occurs in `s` starting at position `i`.
pub fn has_prefix_at(s: &str, i: usize, pat: &str) -> (r: bool)
    requires
        i + pat@.len() <= s@.len(),
    ensures
        r == pat@.is_prefix_of(s@.skip(i as int)),
{
    let n = s.unicode_len();
    let m = pat.unicode_len();
    let mut j: usize = 0;
    while j < m
        invariant
            j <= m,
            m == pat@.len(),
            n == s@.len(),
            i + m <= n,
            forall|q: int| 0 <= q < j ==> s@[i + q] == pat@[q],
        decreases m - j,
    {
        if s.get_char(i + j) != pat.get_char(j) {
            proof {
                let suff = s@.skip(i as int);
                assert(suff[j as int] == s@[i + j]);
            }
            return false;
        }
        j = j + 1;
    }
    proof {
        let suff = s@.skip(i as int);
        assert forall|q: int| 0 <= q < pat@.len() implies suff.subrange(0, pat@.len() as int)[q]
            == pat@[q] by {
            assert(suff[q] == s@[i + q]);
        }
        assert(pat@ =~= suff.subrange(0, pat@.len() as int));
    }
    true
}

/// Counts non-overlapping occurrences of `pat` in `s`, as `count_matches`
/// describes.
pub fn count_matches_str(s: &str, pat: &str) -> (r: usize)
    requires
        pat@.len() > 0,
    ensures
        r == count_matches(s@, pat@),
{
    let n = s.unicode_len();
    let m = pat.unicode_len();
    let mut i: usize = 0;
    let mut cnt: usize = 0;
    proof {
        assert(s@.skip(0) =~= s@);
    }
    while i < n
        invariant
            i <= n,
            cnt <= i,
            n == s@.len(),
            m == pat@.len(),
            m > 0,
            count_matches(s@, pat@) == cnt + count_matches(s@.skip(i as int), pat@),
        decreases n - i,
    {
        if m <= n - i {
            if has_prefix_at(s, i, pat) {
                proof {
                    let suff = s@.skip(i as int);
                    assert(suff.skip(m as int) =~= s@.skip(i + m));
                }
                cnt = cnt + 1;
                i = i + m;
            } else {
                proof {
                    let suff = s@.skip(i as int);
                    assert(suff.drop_first() =~= s@.skip(i + 1));
                }
                i = i + 1;
            }
        } else {
            proof {
                assert(s@.skip(i as int).len() < pat@.len());
                assert(count_matches(s@.skip(i as int), pat@) == 0);
                assert(count_matches(s@.skip(n as int), pat@) == 0);
            }
            i = n;
        }
    }
    proof {
        assert(s@.skip(n as int).len() == 0);
        assert(count_matches(s@.skip(n as int), pat@) == 0);
    }
    cnt
}

} // verus!
