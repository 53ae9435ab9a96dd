//! Dependency files written by the compiler (`-MMD`): which headers a
//! source includes.

use vstd::prelude::*;
use crate::text::{chars_of, line_ranges, lines, ranges_in, slices_of, string_from, word_ranges, words, push_string};

verus! {

/// The first logical line of a list of lines, from line `k` on, `acc`
/// already read: a line ending in `\` continues on the next, the `\`
/// dropped.
pub open spec fn joined_from(ls: Seq<Seq<char>>, k: int, acc: Seq<char>) -> Seq<char>
    decreases ls.len() - k,
{
    if k < 0 || k >= ls.len() {
        acc
    } else {
        let line = acc + ls[k];
        if line.len() > 0 && line.last() == '\\' {
            joined_from(ls, k + 1, line.drop_last())
        } else {
            line
        }
    }
}

/// A word without its trailing backslashes.
pub open spec fn strip_backslashes(t: Seq<char>) -> Seq<char>
    decreases t.len(),
{
    if t.len() > 0 && t.last() == '\\' {
        strip_backslashes(t.drop_last())
    } else {
        t
    }
}

/// A word names a header: it is not empty and is not a rule target (it
/// does not end in `:`).
pub open spec fn names_header(p: Seq<char>) -> bool {
    p.len() > 0 && p.last() != ':'
}

/// The headers named by a list of words.
pub open spec fn headers_in(ws: Seq<Seq<char>>) -> Seq<Seq<char>>
    decreases ws.len(),
{
    if ws.len() == 0 {
        seq![]
    } else {
        headers_in(ws.drop_last()) + if names_header(strip_backslashes(ws.last())) {
            seq![strip_backslashes(ws.last())]
        } else {
            seq![]
        }
    }
}

/// The headers a dependency file lists: the words of its first logical
/// line after the first (the object file's rule).
pub open spec fn spec_parse_depfile(s: Seq<char>) -> Seq<Seq<char>> {
    let ws = words(joined_from(lines(s), 0, seq![]));
    if ws.len() == 0 {
        seq![]
    } else {
        headers_in(ws.drop_first())
    }
}

fn strip_backslashes_exec(t: &[char]) -> (r: &[char])
    ensures
        r@ == strip_backslashes(t@),
{
    let mut j: usize = t.len();
    assert(t@.take(j as int) =~= t@);
    while j > 0 && t[j - 1] == '\\'
        invariant
            j <= t.len(),
            strip_backslashes(t@.take(j as int)) == strip_backslashes(t@),
        decreases j,
    {
        assert(t@.take(j as int).drop_last() =~= t@.take(j - 1));
        j = j - 1;
    }
    &t[0..j]
}

/// The headers that the dependency file text `content` lists.
pub fn parse_depfile(content: &str) -> (r: Vec<String>)
    ensures
        r.deep_view() == spec_parse_depfile(content@),
{
    let cs = chars_of(content);
    let s = cs.as_slice();
    let rs = line_ranges(s);
    let ghost ls = lines(s@);
    let mut line: Vec<char> = Vec::new();
    let mut k: usize = 0;
    loop
        invariant_except_break
            joined_from(ls, k as int, line@) == joined_from(ls, 0, seq![]),
        invariant
            k <= rs.len(),
            ranges_in(s@, rs@),
            slices_of(s@, rs@) == ls,
            ls == lines(content@),
        ensures
            line@ == joined_from(ls, 0, seq![]),
        decreases rs.len() - k,
    {
        if k >= rs.len() {
            break;
        }
        let (a, b) = rs[k];
        assert(ls[k as int] == s@.subrange(a as int, b as int));
        let mut i = a;
        let ghost acc = line@;
        while i < b
            invariant
                a <= i <= b <= s.len(),
                line@ == acc + s@.subrange(a as int, i as int),
            decreases b - i,
        {
            line.push(s[i]);
            assert(line@ =~= acc + s@.subrange(a as int, i + 1));
            i = i + 1;
        }
        k = k + 1;
        if line.len() > 0 && line[line.len() - 1] == '\\' {
            line.pop();
        } else {
            break;
        }
    }
    let mut out: Vec<String> = Vec::new();
    let ws = word_ranges(line.as_slice());
    let ghost wv = words(line@);
    if ws.len() == 0 {
        assert(out.deep_view() =~= seq![]);
        return out;
    }
    let mut q: usize = 1;
    assert(wv.drop_first().take(0) =~= seq![]);
    while q < ws.len()
        invariant
            1 <= q <= ws.len(),
            ranges_in(line@, ws@),
            slices_of(line@, ws@) == wv,
            out.deep_view() == headers_in(wv.drop_first().take(q - 1)),
        decreases ws.len() - q,
    {
        let (a, b) = ws[q];
        assert(wv[q as int] == line@.subrange(a as int, b as int));
        let p = strip_backslashes_exec(&line.as_slice()[a..b]);
        assert(wv.drop_first().take(q as int).drop_last() =~= wv.drop_first().take(q - 1));
        assert(wv.drop_first().take(q as int).last() == wv[q as int]);
        if p.len() > 0 && p[p.len() - 1] != ':' {
            push_string(&mut out, string_from(p));
        }
        assert(out.deep_view() =~= headers_in(wv.drop_first().take(q as int)));
        q = q + 1;
    }
    assert(wv.drop_first().take(q - 1) =~= wv.drop_first());
    out
}

} // verus!

verus! {

// ---------- how a rule is wrapped does not matter ----------

/// The lines with line `j` and the next one joined where `j` ends in a
/// backslash, the backslash dropped: what the text is when that
/// backslash and line break are taken out.
pub open spec fn join_at(ls: Seq<Seq<char>>, j: int) -> Seq<Seq<char>> {
    ls.take(j) + seq![ls[j].drop_last() + ls[j + 1]] + ls.skip(j + 2)
}

proof fn lemma_joined_shifted(ls: Seq<Seq<char>>, m: Seq<Seq<char>>, k: int, acc: Seq<char>)
    requires
        1 <= k <= ls.len(),
        m.len() == ls.len() - 1,
        forall|q: int| k <= q < ls.len() ==> #[trigger] ls[q] == m[q - 1],
    ensures
        joined_from(ls, k, acc) == joined_from(m, k - 1, acc),
    decreases ls.len() - k,
{
    if k < ls.len() {
        assert(ls[k] == m[k - 1]);
        let line = acc + ls[k];
        if line.len() > 0 && line.last() == '\\' {
            lemma_joined_shifted(ls, m, k + 1, line.drop_last());
        }
    }
}

proof fn lemma_joined_join_at(ls: Seq<Seq<char>>, j: int, k: int, acc: Seq<char>)
    requires
        0 <= k <= j,
        j + 1 < ls.len(),
        ls[j].len() > 0 && ls[j].last() == '\\',
    ensures
        joined_from(ls, k, acc) == joined_from(join_at(ls, j), k, acc),
    decreases j - k,
{
    let m = join_at(ls, j);
    assert(m.len() == ls.len() - 1);
    if k < j {
        assert(m[k] == ls[k]);
        let line = acc + ls[k];
        if line.len() > 0 && line.last() == '\\' {
            lemma_joined_join_at(ls, j, k + 1, line.drop_last());
        }
    } else {
        let line = acc + ls[j];
        assert(line.len() > 0 && line.last() == '\\');
        let acc2 = line.drop_last();
        assert(m[j] == ls[j].drop_last() + ls[j + 1]);
        assert(acc2 + ls[j + 1] =~= acc + m[j]);
        let l2 = acc2 + ls[j + 1];
        assert(joined_from(ls, j, acc) == joined_from(ls, j + 1, acc2));
        if l2.len() > 0 && l2.last() == '\\' {
            assert forall|q: int| j + 2 <= q < ls.len() implies #[trigger] ls[q] == m[q - 1] by {}
            lemma_joined_shifted(ls, m, j + 2, l2.drop_last());
            assert(joined_from(ls, j + 1, acc2) == joined_from(ls, j + 2, l2.drop_last()));
            assert(joined_from(m, j, acc) == joined_from(m, j + 1, l2.drop_last()));
        } else {
            assert(joined_from(ls, j + 1, acc2) == l2);
            assert(joined_from(m, j, acc) == l2);
        }
    }
}

/// The headers a dependency file lists do not depend on how its rule is
/// wrapped: taking out a backslash that ends a line together with the
/// line break after it (joining the two lines) leaves them the same,
/// however many lines the rule runs over.
pub proof fn lemma_depfile_wrapping_irrelevant(s: Seq<char>, s2: Seq<char>, j: int)
    requires
        0 <= j,
        j + 1 < lines(s).len(),
        lines(s)[j].len() > 0 && lines(s)[j].last() == '\\',
        lines(s2) == join_at(lines(s), j),
    ensures
        spec_parse_depfile(s2) == spec_parse_depfile(s),
{
    lemma_joined_join_at(lines(s), j, 0, seq![]);
}

} // verus!
