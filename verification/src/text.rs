//! Character-level text handling: whitespace, trimming, lines, splitting.

use vstd::prelude::*;

verus! {

/// The Unicode `White_Space` property, which `char::is_whitespace` and
/// `str::trim` follow.
pub open spec fn is_ws(c: char) -> bool {
    ||| ('\u{9}' <= c && c <= '\u{d}')
    ||| c == ' '
    ||| c == '\u{85}'
    ||| c == '\u{a0}'
    ||| c == '\u{1680}'
    ||| ('\u{2000}' <= c && c <= '\u{200a}')
    ||| c == '\u{2028}'
    ||| c == '\u{2029}'
    ||| c == '\u{202f}'
    ||| c == '\u{205f}'
    ||| c == '\u{3000}'
}

pub fn char_is_ws(c: char) -> (r: bool)
    ensures
        r == is_ws(c),
{
    ('\u{9}' <= c && c <= '\u{d}') || c == ' ' || c == '\u{85}' || c == '\u{a0}' || c
        == '\u{1680}' || ('\u{2000}' <= c && c <= '\u{200a}') || c == '\u{2028}' || c
        == '\u{2029}' || c == '\u{202f}' || c == '\u{205f}' || c == '\u{3000}'
}

/// Appends one character to a string by `String::push`. Claimed, as std
/// documents it: the characters afterwards are those before, then `c`.
#[verifier::external_body]
pub(crate) fn push_char(s: &mut String, c: char)
    ensures
        final(s)@ == old(s)@.push(c),
{
    s.push(c);
}

/// The characters of a string slice, in order.
pub fn chars_of(s: &str) -> (r: Vec<char>)
    ensures
        r@ == s@,
{
    let mut out: Vec<char> = Vec::new();
    for c in it: s.chars()
        invariant
            out@ == it.seq().take(it.index() as int),
    {
        out.push(c);
    }
    out
}

} // verus!

verus! {

/// Appends a string slice to a string.
pub(crate) fn push_str(s: &mut String, t: &str)
    ensures
        final(s)@ == old(s)@ + t@,
{
    s.append(t);
}

/// A string holding the given characters.
pub fn string_from(s: &[char]) -> (r: String)
    ensures
        r@ == s@,
{
    let mut out = String::new();
    let mut i: usize = 0;
    while i < s.len()
        invariant
            i <= s.len(),
            out@ == s@.take(i as int),
        decreases s.len() - i,
    {
        push_char(&mut out, s[i]);
        i = i + 1;
        assert(out@ =~= s@.take(i as int));
    }
    assert(s@.take(s@.len() as int) =~= s@);
    out
}

/// Whether two character slices hold the same characters.
pub fn chars_eq(a: &[char], b: &[char]) -> (r: bool)
    ensures
        r == (a@ == b@),
{
    if a.len() != b.len() {
        return false;
    }
    let mut i: usize = 0;
    while i < a.len()
        invariant
            a.len() == b.len(),
            i <= a.len(),
            forall|k: int| 0 <= k < i ==> a@[k] == b@[k],
        decreases a.len() - i,
    {
        if a[i] != b[i] {
            return false;
        }
        i = i + 1;
    }
    assert(a@ =~= b@);
    true
}

/// Whether `p` is a prefix of `s`.
pub open spec fn has_prefix(s: Seq<char>, p: Seq<char>) -> bool {
    p.len() <= s.len() && s.subrange(0, p.len() as int) == p
}

/// Whether `p` is a suffix of `s`.
pub open spec fn has_suffix(s: Seq<char>, p: Seq<char>) -> bool {
    p.len() <= s.len() && s.subrange(s.len() - p.len(), s.len() as int) == p
}

pub fn starts_with(s: &[char], p: &[char]) -> (r: bool)
    ensures
        r == has_prefix(s@, p@),
{
    if p.len() > s.len() {
        return false;
    }
    chars_eq(&s[0..p.len()], p)
}

pub fn ends_with(s: &[char], p: &[char]) -> (r: bool)
    ensures
        r == has_suffix(s@, p@),
{
    if p.len() > s.len() {
        return false;
    }
    chars_eq(&s[s.len() - p.len()..s.len()], p)
}

// ---------- trimming ----------

/// The first index at or after `i` that does not start a run of whitespace.
pub open spec fn skip_ws(s: Seq<char>, i: int) -> int
    decreases s.len() - i,
{
    if 0 <= i < s.len() && is_ws(s[i]) {
        skip_ws(s, i + 1)
    } else {
        i
    }
}

/// Going back from `j`, but not below `lo`, the start of the run of trailing whitespace.
pub open spec fn back_ws(s: Seq<char>, lo: int, j: int) -> int
    decreases j - lo,
{
    if lo < j && j <= s.len() && is_ws(s[j - 1]) {
        back_ws(s, lo, j - 1)
    } else {
        j
    }
}

/// `s` without leading and trailing whitespace, as `str::trim` gives it.
pub open spec fn trim(s: Seq<char>) -> Seq<char> {
    let a = skip_ws(s, 0);
    s.subrange(a, back_ws(s, a, s.len() as int))
}

pub proof fn lemma_skip_ws_bounds(s: Seq<char>, i: int)
    requires
        0 <= i <= s.len(),
    ensures
        i <= skip_ws(s, i) <= s.len(),
        forall|k: int| i <= k < skip_ws(s, i) ==> is_ws(#[trigger] s[k]),
        skip_ws(s, i) < s.len() ==> !is_ws(s[skip_ws(s, i)]),
    decreases s.len() - i,
{
    if i < s.len() && is_ws(s[i]) {
        lemma_skip_ws_bounds(s, i + 1);
    }
}

pub proof fn lemma_back_ws_bounds(s: Seq<char>, lo: int, j: int)
    requires
        0 <= lo <= j <= s.len(),
    ensures
        lo <= back_ws(s, lo, j) <= j,
        forall|k: int| back_ws(s, lo, j) <= k < j ==> is_ws(#[trigger] s[k]),
        back_ws(s, lo, j) > lo ==> !is_ws(s[back_ws(s, lo, j) - 1]),
    decreases j - lo,
{
    if lo < j && is_ws(s[j - 1]) {
        lemma_back_ws_bounds(s, lo, j - 1);
    }
}

/// The bounds of `trim(s)` inside `s`.
pub fn trim_bounds(s: &[char]) -> (r: (usize, usize))
    ensures
        r.0 <= r.1 <= s@.len(),
        r.0 == skip_ws(s@, 0),
        r.1 == back_ws(s@, r.0 as int, s@.len() as int),
        s@.subrange(r.0 as int, r.1 as int) == trim(s@),
{
    let mut i: usize = 0;
    while i < s.len() && char_is_ws(s[i])
        invariant
            i <= s.len(),
            skip_ws(s@, i as int) == skip_ws(s@, 0),
        decreases s.len() - i,
    {
        i = i + 1;
    }
    let mut j: usize = s.len();
    while j > i && char_is_ws(s[j - 1])
        invariant
            i <= j <= s.len(),
            back_ws(s@, i as int, j as int) == back_ws(s@, i as int, s@.len() as int),
        decreases j - i,
    {
        j = j - 1;
    }
    (i, j)
}

/// `str::trim` on a slice of characters.
pub fn trim_chars(s: &[char]) -> (r: &[char])
    ensures
        r@ == trim(s@),
{
    let (a, b) = trim_bounds(s);
    &s[a..b]
}

} // verus!

verus! {

// ---------- searching ----------

/// The first index at or after `i` holding `c`, or the length of `s`.
pub open spec fn find_from(s: Seq<char>, c: char, i: int) -> int
    decreases s.len() - i,
{
    if 0 <= i < s.len() && s[i] != c {
        find_from(s, c, i + 1)
    } else {
        i
    }
}

pub proof fn lemma_find_from_bounds(s: Seq<char>, c: char, i: int)
    requires
        0 <= i <= s.len(),
    ensures
        i <= find_from(s, c, i) <= s.len(),
        forall|k: int| i <= k < find_from(s, c, i) ==> #[trigger] s[k] != c,
        find_from(s, c, i) < s.len() ==> s[find_from(s, c, i)] == c,
    decreases s.len() - i,
{
    if i < s.len() && s[i] != c {
        lemma_find_from_bounds(s, c, i + 1);
    }
}

pub fn find_char(s: &[char], c: char, from: usize) -> (r: usize)
    requires
        from <= s@.len(),
    ensures
        r == find_from(s@, c, from as int),
        from <= r <= s@.len(),
{
    proof {
        lemma_find_from_bounds(s@, c, from as int);
    }
    let mut i = from;
    while i < s.len() && s[i] != c
        invariant
            from <= i <= s.len(),
            find_from(s@, c, i as int) == find_from(s@, c, from as int),
        decreases s.len() - i,
    {
        i = i + 1;
    }
    i
}

/// The pieces of `s` named by a list of index ranges.
pub open spec fn slices_of(s: Seq<char>, rs: Seq<(usize, usize)>) -> Seq<Seq<char>> {
    Seq::new(rs.len(), |k: int| s.subrange(rs[k].0 as int, rs[k].1 as int))
}

/// Every range lies inside `s`.
pub open spec fn ranges_in(s: Seq<char>, rs: Seq<(usize, usize)>) -> bool {
    forall|k: int| 0 <= k < rs.len() ==> #[trigger] rs[k].0 <= rs[k].1 <= s.len()
}

// ---------- lines ----------

/// The text of the line that runs from `i` up to the newline at `e`
/// (or the end), without its line ending: a `\r` before the `\n` goes too.
pub open spec fn line_body(s: Seq<char>, i: int, e: int) -> Seq<char> {
    if e < s.len() && i < e && s[e - 1] == '\r' {
        s.subrange(i, e - 1)
    } else {
        s.subrange(i, e)
    }
}

/// The lines of `s` from index `i` on, as `str::lines` yields them.
pub open spec fn lines_from(s: Seq<char>, i: int) -> Seq<Seq<char>>
    decreases s.len() + 1 - i,
{
    if i < 0 || i >= s.len() {
        seq![]
    } else {
        let e = find_from(s, '\n', i);
        proof {
            lemma_find_from_bounds(s, '\n', i);
        }
        seq![line_body(s, i, e)] + lines_from(s, e + 1)
    }
}

/// The lines of `s`, as `str::lines` yields them.
pub open spec fn lines(s: Seq<char>) -> Seq<Seq<char>> {
    lines_from(s, 0)
}

/// The index ranges of the lines of `s`.
pub fn line_ranges(s: &[char]) -> (r: Vec<(usize, usize)>)
    ensures
        ranges_in(s@, r@),
        slices_of(s@, r@) == lines(s@),
{
    let mut out: Vec<(usize, usize)> = Vec::new();
    let mut i: usize = 0;
    assert(slices_of(s@, out@) =~= seq![]);
    while i < s.len()
        invariant
            i <= s.len(),
            ranges_in(s@, out@),
            slices_of(s@, out@) + lines_from(s@, i as int) == lines(s@),
        decreases s.len() - i,
    {
        let e = find_char(s, '\n', i);
        let b = if e < s.len() && i < e && s[e - 1] == '\r' {
            e - 1
        } else {
            e
        };
        let ghost old_out = out@;
        out.push((i, b));
        assert(slices_of(s@, out@) =~= slices_of(s@, old_out).push(line_body(s@, i as int, e as int)));
        assert(lines_from(s@, i as int) == seq![line_body(s@, i as int, e as int)] + lines_from(s@, e + 1));
        assert(slices_of(s@, out@) + lines_from(s@, e + 1) =~= slices_of(s@, old_out) + lines_from(s@, i as int));
        if e == s.len() {
            assert(lines_from(s@, e + 1) =~= seq![]);
            assert(slices_of(s@, out@) + lines_from(s@, e + 1) =~= slices_of(s@, out@));
            return out;
        }
        i = e + 1;
    }
    assert(slices_of(s@, out@) + lines_from(s@, i as int) =~= slices_of(s@, out@));
    out
}

// ---------- whitespace-separated words ----------

/// The end of the run of non-whitespace starting at `i`.
pub open spec fn word_end(s: Seq<char>, i: int) -> int
    decreases s.len() - i,
{
    if 0 <= i < s.len() && !is_ws(s[i]) {
        word_end(s, i + 1)
    } else {
        i
    }
}

pub proof fn lemma_word_end_bounds(s: Seq<char>, i: int)
    requires
        0 <= i <= s.len(),
    ensures
        i <= word_end(s, i) <= s.len(),
        i < s.len() && !is_ws(s[i]) ==> i < word_end(s, i),
        forall|k: int| i <= k < word_end(s, i) ==> !is_ws(#[trigger] s[k]),
    decreases s.len() - i,
{
    if i < s.len() && !is_ws(s[i]) {
        lemma_word_end_bounds(s, i + 1);
    }
}

/// The words of `s` from index `i` on, as `str::split_whitespace` yields them.
pub open spec fn words_from(s: Seq<char>, i: int) -> Seq<Seq<char>>
    decreases s.len() - i,
{
    if i < 0 || i > s.len() {
        seq![]
    } else {
        let a = skip_ws(s, i);
        proof {
            lemma_skip_ws_bounds(s, i);
        }
        if a >= s.len() {
            seq![]
        } else {
            let b = word_end(s, a);
            proof {
                lemma_word_end_bounds(s, a);
            }
            seq![s.subrange(a, b)] + words_from(s, b)
        }
    }
}

/// The words of `s`, as `str::split_whitespace` yields them.
pub open spec fn words(s: Seq<char>) -> Seq<Seq<char>> {
    words_from(s, 0)
}

/// The index ranges of the words of `s`.
pub fn word_ranges(s: &[char]) -> (r: Vec<(usize, usize)>)
    ensures
        ranges_in(s@, r@),
        slices_of(s@, r@) == words(s@),
{
    let mut out: Vec<(usize, usize)> = Vec::new();
    let mut i: usize = 0;
    assert(slices_of(s@, out@) =~= seq![]);
    loop
        invariant
            i <= s.len(),
            ranges_in(s@, out@),
            slices_of(s@, out@) + words_from(s@, i as int) == words(s@),
        decreases s.len() - i,
    {
        proof {
            lemma_skip_ws_bounds(s@, i as int);
        }
        let mut a = i;
        while a < s.len() && char_is_ws(s[a])
            invariant
                i <= a <= s.len(),
                skip_ws(s@, a as int) == skip_ws(s@, i as int),
            decreases s.len() - a,
        {
            a = a + 1;
        }
        if a >= s.len() {
            assert(words_from(s@, i as int) =~= seq![]);
            assert(slices_of(s@, out@) + words_from(s@, i as int) =~= slices_of(s@, out@));
            return out;
        }
        proof {
            lemma_word_end_bounds(s@, a as int);
        }
        let mut b = a;
        while b < s.len() && !char_is_ws(s[b])
            invariant
                a <= b <= s.len(),
                word_end(s@, b as int) == word_end(s@, a as int),
            decreases s.len() - b,
        {
            b = b + 1;
        }
        let ghost old_out = out@;
        out.push((a, b));
        assert(ranges_in(s@, out@)) by {
            assert forall|k: int| 0 <= k < out@.len() implies #[trigger] out@[k].0 <= out@[k].1 <= s@.len() by {
                if k < old_out.len() {
                    assert(out@[k] == old_out[k]);
                }
            }
        }
        assert(slices_of(s@, out@) =~= slices_of(s@, old_out).push(s@.subrange(a as int, b as int)));
        assert(slices_of(s@, out@) + words_from(s@, b as int) =~= slices_of(s@, old_out) + words_from(s@, i as int));
        i = b;
    }
}

// ---------- splitting at a separator ----------

/// The pieces of `s` from index `i` on, cut at each `c`, as `str::split` yields them.
pub open spec fn pieces_from(s: Seq<char>, c: char, i: int) -> Seq<Seq<char>>
    decreases s.len() + 1 - i,
{
    if i < 0 || i > s.len() {
        seq![]
    } else {
        let e = find_from(s, c, i);
        proof {
            lemma_find_from_bounds(s, c, i);
        }
        if e < s.len() {
            seq![s.subrange(i, e)] + pieces_from(s, c, e + 1)
        } else {
            seq![s.subrange(i, s.len() as int)]
        }
    }
}

/// The pieces of `s` cut at each `c`, as `str::split` yields them.
pub open spec fn pieces(s: Seq<char>, c: char) -> Seq<Seq<char>> {
    pieces_from(s, c, 0)
}

/// The index ranges of the pieces of `s` cut at each `c`.
pub fn piece_ranges(s: &[char], c: char) -> (r: Vec<(usize, usize)>)
    ensures
        ranges_in(s@, r@),
        slices_of(s@, r@) == pieces(s@, c),
{
    let mut out: Vec<(usize, usize)> = Vec::new();
    let mut i: usize = 0;
    assert(slices_of(s@, out@) =~= seq![]);
    loop
        invariant
            i <= s.len(),
            ranges_in(s@, out@),
            slices_of(s@, out@) + pieces_from(s@, c, i as int) == pieces(s@, c),
        decreases s.len() - i,
    {
        let e = find_char(s, c, i);
        let ghost old_out = out@;
        out.push((i, e));
        assert(slices_of(s@, out@) =~= slices_of(s@, old_out).push(s@.subrange(i as int, e as int)));
        if e == s.len() {
            assert(pieces_from(s@, c, i as int) =~= seq![s@.subrange(i as int, e as int)]);
            assert(slices_of(s@, out@) =~= slices_of(s@, old_out) + pieces_from(s@, c, i as int));
            return out;
        }
        assert(slices_of(s@, out@) + pieces_from(s@, c, e + 1) =~= slices_of(s@, old_out) + pieces_from(s@, c, i as int));
        i = e + 1;
    }
}

} // verus!

verus! {

pub proof fn lemma_push_deep_view(before: Seq<Seq<char>>, after: Seq<String>, x: String)
    requires
        after.len() == before.len() + 1,
        after[before.len() as int] == x,
        forall|j: int| 0 <= j < before.len() ==> #[trigger] after[j]@ == before[j],
    ensures
        Seq::new(after.len(), |i: int| after[i]@) == before.push(x@),
{
    assert(Seq::new(after.len(), |i: int| after[i]@) =~= before.push(x@));
}

/// A copy of a list of strings.
pub fn clone_strings(v: &Vec<String>) -> (r: Vec<String>)
    ensures
        r.deep_view() == v.deep_view(),
{
    let mut out: Vec<String> = Vec::new();
    let mut i: usize = 0;
    while i < v.len()
        invariant
            i <= v.len(),
            out.deep_view() == v.deep_view().take(i as int),
        decreases v.len() - i,
    {
        let s = v[i].clone();
        let ghost before = out.deep_view();
        out.push(s);
        proof {
            lemma_push_deep_view(before, out@, s);
        }
        assert(out.deep_view() =~= v.deep_view().take(i + 1));
        i = i + 1;
    }
    assert(v.deep_view().take(i as int) =~= v.deep_view());
    out
}

} // verus!

verus! {

/// A string holding the given string slice.
pub fn string_of(t: &str) -> (r: String)
    ensures
        r@ == t@,
{
    let mut s = String::new();
    push_str(&mut s, t);
    assert(s@ =~= t@);
    s
}

/// Appends a string to a list of strings.
pub fn push_string(v: &mut Vec<String>, s: String)
    ensures
        final(v).deep_view() == old(v).deep_view().push(s@),
{
    let ghost before = v.deep_view();
    v.push(s);
    proof {
        lemma_push_deep_view(before, v@, s);
    }
}

/// Appends copies of all strings of `w` to `v`.
pub fn extend_strings(v: &mut Vec<String>, w: &Vec<String>)
    ensures
        final(v).deep_view() == old(v).deep_view() + w.deep_view(),
{
    let mut i: usize = 0;
    assert(v.deep_view() =~= old(v).deep_view() + w.deep_view().take(0));
    while i < w.len()
        invariant
            i <= w.len(),
            v.deep_view() == old(v).deep_view() + w.deep_view().take(i as int),
        decreases w.len() - i,
    {
        let s = w[i].clone();
        assert(s@ == w.deep_view()[i as int]);
        push_string(v, s);
        assert(v.deep_view() =~= old(v).deep_view() + w.deep_view().take(i + 1));
        i = i + 1;
    }
    assert(w.deep_view().take(i as int) =~= w.deep_view());
}

} // verus!

verus! {

// ---------- numbers as text ----------

/// The decimal digits.
pub open spec fn decimal_digits() -> Seq<char> {
    seq!['0', '1', '2', '3', '4', '5', '6', '7', '8', '9']
}

/// `n` written in decimal, without leading zeros, as `{}` formats it.
pub open spec fn decimal(n: nat) -> Seq<char>
    decreases n,
{
    if n < 10 {
        seq![decimal_digits()[n as int]]
    } else {
        decimal(n / 10) + seq![decimal_digits()[(n % 10) as int]]
    }
}

/// `n` written in decimal.
pub fn decimal_string(n: usize) -> (r: String)
    ensures
        r@ == decimal(n as nat),
    decreases n,
{
    let table: [char; 10] = ['0', '1', '2', '3', '4', '5', '6', '7', '8', '9'];
    assert(table@ =~= decimal_digits());
    if n < 10 {
        let mut s = String::new();
        push_char(&mut s, table[n]);
        assert(s@ =~= decimal(n as nat));
        s
    } else {
        let mut s = decimal_string(n / 10);
        push_char(&mut s, table[n % 10]);
        assert(s@ =~= decimal(n as nat));
        s
    }
}

/// Three pieces of text, one after another.
pub fn concat3(a: &str, b: &str, c: &str) -> (r: String)
    ensures
        r@ == a@ + b@ + c@,
{
    let mut s = string_of(a);
    push_str(&mut s, b);
    push_str(&mut s, c);
    s
}

} // verus!
