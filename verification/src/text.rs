//! Plain-text utilities with exact contracts: substring search, trimming,
//! line splitting and token extraction, as the tool-output parsers need them.

use vstd::prelude::*;

verus! {

/// ASCII whitespace as the parsers understand it.
pub open spec fn is_space(c: char) -> bool {
    c == ' ' || c == '\t' || c == '\r' || c == '\n'
}

/// The pattern `p` stands in `s` at position `i`.
pub open spec fn contains_at(s: Seq<char>, p: Seq<char>, i: int) -> bool {
    &&& 0 <= i
    &&& i + p.len() <= s.len()
    &&& s.subrange(i, i + p.len()) == p
}

/// The pattern `p` stands somewhere in `s`.
pub open spec fn text_contains(s: Seq<char>, p: Seq<char>) -> bool {
    exists|i: int| contains_at(s, p, i)
}

/// The position of the first stand of `p` in `s`; `s.len()` when there is
/// none (and for an empty pattern, 0).
pub open spec fn first_occurrence(s: Seq<char>, p: Seq<char>) -> int
    decreases s.len(),
{
    if contains_at(s, p, 0) {
        0
    } else if s.len() == 0 {
        0
    } else {
        1 + first_occurrence(s.drop_first(), p)
    }
}

/// A stand of `p` in the tail of `s` is a stand in `s`, one position over,
/// and the other way round.
proof fn lemma_contains_at_shift(s: Seq<char>, p: Seq<char>, i: int)
    requires
        s.len() > 0,
        1 <= i,
    ensures
        contains_at(s, p, i) == contains_at(s.drop_first(), p, i - 1),
{
    if contains_at(s, p, i) {
        assert(s.drop_first().subrange(i - 1, i - 1 + p.len() as int) =~= s.subrange(
            i,
            i + p.len(),
        ));
    }
    if contains_at(s.drop_first(), p, i - 1) {
        assert(s.subrange(i, i + p.len()) =~= s.drop_first().subrange(
            i - 1,
            i - 1 + p.len() as int,
        ));
    }
}

/// Bounds on the first occurrence, and what holds at and before it.
proof fn lemma_first_occurrence(s: Seq<char>, p: Seq<char>)
    ensures
        0 <= first_occurrence(s, p) <= s.len(),
        forall|j: int| 0 <= j < first_occurrence(s, p) ==> !contains_at(s, p, j),
        text_contains(s, p) ==> contains_at(s, p, first_occurrence(s, p)),
        !text_contains(s, p) ==> first_occurrence(s, p) == s.len(),
    decreases s.len(),
{
    let k = first_occurrence(s, p);
    if contains_at(s, p, 0) {
    } else if s.len() == 0 {
        assert forall|j: int| !contains_at(s, p, j) by {
            if contains_at(s, p, j) {
                assert(j == 0);
            }
        }
    } else {
        let t = s.drop_first();
        lemma_first_occurrence(t, p);
        assert forall|j: int| 0 <= j < k implies !contains_at(s, p, j) by {
            if j >= 1 {
                lemma_contains_at_shift(s, p, j);
            }
        }
        if text_contains(s, p) {
            let w = choose|i: int| contains_at(s, p, i);
            assert(w >= 1);
            lemma_contains_at_shift(s, p, w);
            assert(text_contains(t, p));
            lemma_contains_at_shift(s, p, k);
        }
        if !text_contains(s, p) {
            if text_contains(t, p) {
                let w = choose|i: int| contains_at(t, p, i);
                lemma_contains_at_shift(s, p, w + 1);
            }
        }
    }
}

/// The pattern stands at `i` and nowhere earlier, so `i` is the first
/// occurrence.
proof fn lemma_first_occurrence_is(s: Seq<char>, p: Seq<char>, i: int)
    requires
        contains_at(s, p, i),
        forall|j: int| 0 <= j < i ==> !contains_at(s, p, j),
    ensures
        first_occurrence(s, p) == i,
{
    lemma_first_occurrence(s, p);
    let k = first_occurrence(s, p);
    assert(text_contains(s, p));
    if k < i {
        assert(!contains_at(s, p, k));
    }
    if k > i {
        assert(!contains_at(s, p, i));
    }
}

/// The characters of `s` from `i` on equal the pattern.
fn match_at(s: &str, pat: &str, i: usize, n: usize, m: usize) -> (r: bool)
    requires
        n == s@.len(),
        m == pat@.len(),
        i + m <= n,
    ensures
        r == contains_at(s@, pat@, i as int),
{
    let mut k: usize = 0;
    while k < m
        invariant
            n == s@.len(),
            m == pat@.len(),
            i + m <= n,
            k <= m,
            forall|t: int| 0 <= t < k ==> s@[i + t] == pat@[t],
        decreases m - k,
    {
        if s.get_char(i + k) != pat.get_char(k) {
            proof {
                if contains_at(s@, pat@, i as int) {
                    assert(s@.subrange(i as int, i as int + m as int)[k as int] == pat@[k as int]);
                }
            }
            return false;
        }
        k += 1;
    }
    proof {
        assert(s@.subrange(i as int, i as int + m as int) =~= pat@);
    }
    true
}

/// The position of the first stand of `pat` in `s`, if `pat` stands in `s`
/// at all.
pub fn find_str(s: &str, pat: &str) -> (r: Option<usize>)
    ensures
        match r {
            Some(i) => text_contains(s@, pat@) && contains_at(s@, pat@, i as int) && i as int
                == first_occurrence(s@, pat@),
            None => !text_contains(s@, pat@),
        },
{
    let n = s.unicode_len();
    let m = pat.unicode_len();
    if m == 0 {
        proof {
            assert(s@.subrange(0, 0) =~= pat@);
            lemma_first_occurrence_is(s@, pat@, 0);
        }
        return Some(0);
    }
    if m > n {
        proof {
            lemma_first_occurrence(s@, pat@);
            if text_contains(s@, pat@) {
                let w = choose|i: int| contains_at(s@, pat@, i);
            }
        }
        return None;
    }
    let mut i: usize = 0;
    while i <= n - m
        invariant
            n == s@.len(),
            m == pat@.len(),
            1 <= m <= n,
            i <= n - m + 1,
            forall|j: int| 0 <= j < i ==> !contains_at(s@, pat@, j),
        decreases n - m - i + 1,
    {
        if match_at(s, pat, i, n, m) {
            proof {
                lemma_first_occurrence_is(s@, pat@, i as int);
            }
            return Some(i);
        }
        i += 1;
    }
    proof {
        if text_contains(s@, pat@) {
            let w = choose|j: int| contains_at(s@, pat@, j);
            assert(!contains_at(s@, pat@, w));
        }
    }
    None
}

/// Whether `pat` stands somewhere in `s`.
pub fn contains_str(s: &str, pat: &str) -> (r: bool)
    ensures
        r == text_contains(s@, pat@),
{
    find_str(s, pat).is_some()
}

/// The view of an optional text.
pub open spec fn opt_text(o: Option<String>) -> Option<Seq<char>> {
    match o {
        Some(s) => Some(s@),
        None => None,
    }
}

/// Whether two texts hold the same characters.
pub fn str_eq(a: &str, b: &str) -> (r: bool)
    ensures
        r == (a@ == b@),
{
    let n = a.unicode_len();
    let m = b.unicode_len();
    if n != m {
        return false;
    }
    let mut i: usize = 0;
    while i < n
        invariant
            n == a@.len(),
            n == b@.len(),
            i <= n,
            forall|j: int| 0 <= j < i ==> a@[j] == b@[j],
        decreases n - i,
    {
        if a.get_char(i) != b.get_char(i) {
            return false;
        }
        i += 1;
    }
    proof {
        assert(a@ =~= b@);
    }
    true
}

/// The text with its leading whitespace removed.
pub open spec fn trim_front(s: Seq<char>) -> Seq<char>
    decreases s.len(),
{
    if s.len() > 0 && is_space(s[0]) {
        trim_front(s.drop_first())
    } else {
        s
    }
}

/// The text with its trailing whitespace removed.
pub open spec fn trim_back(s: Seq<char>) -> Seq<char>
    decreases s.len(),
{
    if s.len() > 0 && is_space(s.last()) {
        trim_back(s.drop_last())
    } else {
        s
    }
}

/// The text with whitespace removed at both ends.
pub open spec fn spec_trim(s: Seq<char>) -> Seq<char> {
    trim_back(trim_front(s))
}

/// Removing leading whitespace keeps the tail from the first non-space on.
proof fn lemma_trim_front_at(s: Seq<char>, k: int)
    requires
        0 <= k <= s.len(),
        forall|i: int| 0 <= i < k ==> is_space(s[i]),
        k == s.len() || !is_space(s[k]),
    ensures
        trim_front(s) == s.subrange(k, s.len() as int),
    decreases s.len(),
{
    if k == 0 {
        assert(s.subrange(0, s.len() as int) =~= s);
    } else {
        let t = s.drop_first();
        lemma_trim_front_at(t, k - 1);
        assert(t.subrange(k - 1, t.len() as int) =~= s.subrange(k, s.len() as int));
    }
}

/// Removing trailing whitespace keeps the head up to the last non-space.
proof fn lemma_trim_back_at(s: Seq<char>, k: int)
    requires
        0 <= k <= s.len(),
        forall|i: int| k <= i < s.len() ==> is_space(s[i]),
        k == 0 || !is_space(s[k - 1]),
    ensures
        trim_back(s) == s.subrange(0, k),
    decreases s.len(),
{
    if k == s.len() {
        assert(s.subrange(0, k) =~= s);
    } else {
        let t = s.drop_last();
        assert(is_space(s.last()));
        lemma_trim_back_at(t, k);
        assert(t.subrange(0, k) =~= s.subrange(0, k));
    }
}

/// Whether the character counts as whitespace.
fn is_space_char(c: char) -> (r: bool)
    ensures
        r == is_space(c),
{
    match c {
        ' ' | '\t' | '\r' | '\n' => true,
        _ => false,
    }
}

/// The text with whitespace removed at both ends.
pub fn trim(s: &str) -> (r: &str)
    ensures
        r@ == spec_trim(s@),
{
    let n = s.unicode_len();
    let mut a: usize = 0;
    while a < n && is_space_char(s.get_char(a))
        invariant
            n == s@.len(),
            a <= n,
            forall|i: int| 0 <= i < a ==> is_space(s@[i]),
        decreases n - a,
    {
        a += 1;
    }
    let mut b: usize = n;
    while b > a && is_space_char(s.get_char(b - 1))
        invariant
            n == s@.len(),
            a <= b <= n,
            forall|i: int| b <= i < n ==> is_space(s@[i]),
        decreases b,
    {
        b -= 1;
    }
    proof {
        lemma_trim_front_at(s@, a as int);
        let t = s@.subrange(a as int, n as int);
        lemma_trim_back_at(t, b - a);
        assert(t.subrange(0, b - a) =~= s@.subrange(a as int, b as int));
    }
    s.substring_char(a, b)
}

/// A line with a trailing carriage return dropped.
pub open spec fn strip_cr(l: Seq<char>) -> Seq<char> {
    if l.len() > 0 && l.last() == '\r' {
        l.drop_last()
    } else {
        l
    }
}

/// The lines of a text: split at each newline, a trailing carriage return
/// dropped from each line, and no empty final line after a terminal newline.
pub open spec fn split_lines(s: Seq<char>) -> Seq<Seq<char>>
    decreases s.len(),
{
    if s.len() == 0 {
        seq![]
    } else {
        let k = first_occurrence(s, seq!['\n']);
        if 0 <= k < s.len() {
            seq![strip_cr(s.subrange(0, k))] + split_lines(s.subrange(k + 1, s.len() as int))
        } else {
            seq![strip_cr(s)]
        }
    }
}

/// How one leading line unfolds from the text.
proof fn lemma_split_lines_step(s: Seq<char>, k: int)
    requires
        0 <= k < s.len(),
        forall|i: int| 0 <= i < k ==> s[i] != '\n',
        s[k] == '\n',
    ensures
        split_lines(s) == seq![strip_cr(s.subrange(0, k))] + split_lines(
            s.subrange(k + 1, s.len() as int),
        ),
{
    assert(s.subrange(k, k + 1) =~= seq!['\n']);
    assert(contains_at(s, seq!['\n'], k));
    assert forall|j: int| 0 <= j < k implies !contains_at(s, seq!['\n'], j) by {
        if contains_at(s, seq!['\n'], j) {
            assert(s.subrange(j, j + 1)[0] == s[j]);
        }
    }
    lemma_first_occurrence_is(s, seq!['\n'], k);
}

/// A text without a newline is one line.
proof fn lemma_split_lines_last(s: Seq<char>)
    requires
        s.len() > 0,
        forall|i: int| 0 <= i < s.len() ==> s[i] != '\n',
    ensures
        split_lines(s) == seq![strip_cr(s)],
{
    lemma_first_occurrence(s, seq!['\n']);
    if text_contains(s, seq!['\n']) {
        let w = choose|i: int| contains_at(s, seq!['\n'], i);
        assert(s.subrange(w, w + 1)[0] == s[w]);
    }
}

/// The lines of the text, in order.
pub fn lines(s: &str) -> (r: Vec<String>)
    ensures
        r@.len() == split_lines(s@).len(),
        forall|i: int| 0 <= i < r@.len() ==> r@[i]@ == split_lines(s@)[i],
{
    let n = s.unicode_len();
    let mut out: Vec<String> = Vec::new();
    let mut pos: usize = 0;
    let mut i: usize = 0;
    proof {
        assert(s@.subrange(0, n as int) =~= s@);
    }
    while i < n
        invariant
            n == s@.len(),
            pos <= i <= n,
            forall|t: int| pos <= t < i ==> s@[t] != '\n',
            split_lines(s@).len() == out@.len() + split_lines(
                s@.subrange(pos as int, n as int),
            ).len(),
            forall|t: int| 0 <= t < out@.len() ==> out@[t]@ == split_lines(s@)[t],
            forall|t: int|
                0 <= t < split_lines(s@.subrange(pos as int, n as int)).len() ==> split_lines(
                    s@.subrange(pos as int, n as int),
                )[t] == split_lines(s@)[out@.len() + t],
        decreases n - i,
    {
        if s.get_char(i) == '\n' {
            let ghost rest = s@.subrange(pos as int, n as int);
            let ghost prevlen = out@.len() as int;
            let e = if i > pos && s.get_char(i - 1) == '\r' {
                i - 1
            } else {
                i
            };
            let line = s.substring_char(pos, e);
            proof {
                lemma_split_lines_step(rest, i - pos);
                assert(rest.subrange(0, i - pos) =~= s@.subrange(pos as int, i as int));
                assert(rest.subrange(i - pos + 1, rest.len() as int) =~= s@.subrange(
                    i as int + 1,
                    n as int,
                ));
                if i > pos && s@[i as int - 1] == '\r' {
                    assert(strip_cr(s@.subrange(pos as int, i as int)) =~= s@.subrange(
                        pos as int,
                        i as int - 1,
                    ));
                }
                assert(line@ == strip_cr(s@.subrange(pos as int, i as int)));
                assert(split_lines(rest) == seq![line@] + split_lines(
                    s@.subrange(i as int + 1, n as int),
                ));
            }
            out.push(line.to_string());
            pos = i + 1;
            proof {
                let rest2 = s@.subrange(pos as int, n as int);
                assert(out@[prevlen]@ == line@);
                assert(split_lines(rest)[0] == line@);
                assert(split_lines(s@)[prevlen] == split_lines(rest)[0]);
                assert forall|t: int| 0 <= t < split_lines(rest2).len() implies split_lines(
                    rest2,
                )[t] == split_lines(s@)[out@.len() + t] by {
                    assert(split_lines(rest)[t + 1] == split_lines(rest2)[t]);
                    assert(split_lines(rest)[t + 1] == split_lines(s@)[prevlen + t + 1]);
                }
            }
        }
        i += 1;
    }
    if pos < n {
        let ghost rest = s@.subrange(pos as int, n as int);
        let ghost prevlen = out@.len() as int;
        let e = if s.get_char(n - 1) == '\r' {
            n - 1
        } else {
            n
        };
        let line = s.substring_char(pos, e);
        proof {
            lemma_split_lines_last(rest);
            if s@[n as int - 1] == '\r' {
                assert(strip_cr(rest) =~= s@.subrange(pos as int, n as int - 1));
            } else {
                assert(strip_cr(rest) =~= s@.subrange(pos as int, n as int));
            }
            assert(line@ == strip_cr(rest));
        }
        out.push(line.to_string());
        proof {
            assert(out@[prevlen]@ == line@);
            assert(split_lines(s@)[prevlen] == split_lines(rest)[0]);
        }
    } else {
        proof {
            assert(s@.subrange(pos as int, n as int).len() == 0);
        }
    }
    out
}

/// The position of the first whitespace character; the length when there is
/// none.
pub open spec fn first_space(s: Seq<char>) -> int
    decreases s.len(),
{
    if s.len() == 0 {
        0
    } else if is_space(s[0]) {
        0
    } else {
        1 + first_space(s.drop_first())
    }
}

/// Whitespace at `k` and none before it pins the first whitespace position.
proof fn lemma_first_space_is(s: Seq<char>, k: int)
    requires
        0 <= k <= s.len(),
        forall|i: int| 0 <= i < k ==> !is_space(s[i]),
        k == s.len() || is_space(s[k]),
    ensures
        first_space(s) == k,
    decreases s.len(),
{
    if k > 0 {
        lemma_first_space_is(s.drop_first(), k - 1);
    }
}

/// The first whitespace-delimited token of a text, if the text holds any
/// non-whitespace at all.
pub open spec fn spec_first_token(s: Seq<char>) -> Option<Seq<char>> {
    let t = trim_front(s);
    if t.len() == 0 {
        None
    } else {
        Some(t.subrange(0, first_space(t)))
    }
}

/// The first whitespace-delimited token of the text.
pub fn first_token(s: &str) -> (r: Option<String>)
    ensures
        match r {
            Some(t) => spec_first_token(s@) == Some(t@),
            None => spec_first_token(s@) is None,
        },
{
    let n = s.unicode_len();
    let mut a: usize = 0;
    while a < n && is_space_char(s.get_char(a))
        invariant
            n == s@.len(),
            a <= n,
            forall|i: int| 0 <= i < a ==> is_space(s@[i]),
        decreases n - a,
    {
        a += 1;
    }
    proof {
        lemma_trim_front_at(s@, a as int);
    }
    if a == n {
        return None;
    }
    let mut b: usize = a;
    while b < n && !is_space_char(s.get_char(b))
        invariant
            n == s@.len(),
            a <= b <= n,
            forall|i: int| a <= i < b ==> !is_space(s@[i]),
        decreases n - b,
    {
        b += 1;
    }
    proof {
        let t = s@.subrange(a as int, n as int);
        lemma_first_space_is(t, b - a);
        assert(t.subrange(0, b - a) =~= s@.subrange(a as int, b as int));
    }
    Some(s.substring_char(a, b).to_string())
}

} // verus!
