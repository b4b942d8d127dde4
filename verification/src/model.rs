//! The mathematical model of the formatter: spec functions over `Seq<char>`
//! describing line splitting, junk-line collapsing, junk repositioning and
//! joining, together with characterization lemmas for the scan functions.

use vstd::prelude::*;

verus! {

/// Characters the formatter treats as relocatable "junk": braces and semicolons.
pub open spec fn is_junk(c: char) -> bool {
    c == '{' || c == '}' || c == ';'
}

/// Whitespace characters, following the Unicode `White_Space` property.
pub open spec fn is_ws(c: char) -> bool {
    c == '\u{0009}' || c == '\u{000A}' || c == '\u{000B}' || c == '\u{000C}' || c == '\u{000D}'
        || c == '\u{0020}' || c == '\u{0085}' || c == '\u{00A0}' || c == '\u{1680}'
        || c == '\u{2000}' || c == '\u{2001}' || c == '\u{2002}' || c == '\u{2003}'
        || c == '\u{2004}' || c == '\u{2005}' || c == '\u{2006}' || c == '\u{2007}'
        || c == '\u{2008}' || c == '\u{2009}' || c == '\u{200A}' || c == '\u{2028}'
        || c == '\u{2029}' || c == '\u{202F}' || c == '\u{205F}' || c == '\u{3000}'
}

pub open spec fn is_junk_or_ws(c: char) -> bool {
    is_junk(c) || is_ws(c)
}

/// A character that is neither whitespace nor junk: the "content" the
/// formatter must never lose.
pub open spec fn is_content(c: char) -> bool {
    !is_ws(c) && !is_junk(c)
}

/// The line with every whitespace character removed.
pub open spec fn strip_ws(s: Seq<char>) -> Seq<char> {
    s.filter(|c: char| !is_ws(c))
}

pub open spec fn all_junk(s: Seq<char>) -> bool {
    forall|i: int| 0 <= i < s.len() ==> is_junk(#[trigger] s[i])
}

/// A line whose non-whitespace content is non-empty and consists of junk
/// characters only; such a line is merged into its predecessor.
pub open spec fn junk_only(l: Seq<char>) -> bool {
    strip_ws(l).len() > 0 && all_junk(strip_ws(l))
}

/// Length of the maximal run of whitespace at the start of `l`.
pub open spec fn ws_prefix_len(l: Seq<char>) -> nat
    decreases l.len(),
{
    if l.len() == 0 || !is_ws(l.first()) {
        0
    } else {
        1 + ws_prefix_len(l.drop_first())
    }
}

/// Length of the maximal run of junk-or-whitespace at the start of `l`.
pub open spec fn junkws_prefix_len(l: Seq<char>) -> nat
    decreases l.len(),
{
    if l.len() == 0 || !is_junk_or_ws(l.first()) {
        0
    } else {
        1 + junkws_prefix_len(l.drop_first())
    }
}

/// Length of the maximal run of junk-or-whitespace at the end of `l`.
pub open spec fn junkws_suffix_len(l: Seq<char>) -> nat
    decreases l.len(),
{
    if l.len() == 0 || !is_junk_or_ws(l.last()) {
        0
    } else {
        1 + junkws_suffix_len(l.drop_last())
    }
}

/// Whether the line begins with at least one whitespace character followed
/// immediately by a junk character: the pattern that triggers moving the
/// leading junk run back into the previous line.
pub open spec fn has_leading_junk(l: Seq<char>) -> bool {
    let p = ws_prefix_len(l) as int;
    p >= 1 && p < l.len() && is_junk(l[p])
}

/// End index (exclusive) of the leading junk-and-whitespace run that starts
/// at the first junk character.
pub open spec fn leading_group_end(l: Seq<char>) -> int {
    let p = ws_prefix_len(l) as int;
    p + junkws_prefix_len(l.subrange(p, l.len() as int))
}

/// The line after the leading junk run has been cut out (the leading
/// whitespace itself stays in place).
pub open spec fn after_leading_extraction(l: Seq<char>) -> Seq<char> {
    if has_leading_junk(l) {
        let p = ws_prefix_len(l) as int;
        l.subrange(0, p) + l.subrange(leading_group_end(l), l.len() as int)
    } else {
        l
    }
}

/// The junk characters extracted from the leading run, staged for appending
/// to the previous line.
pub open spec fn staged_junk(l: Seq<char>) -> Seq<char> {
    if has_leading_junk(l) {
        strip_ws(l.subrange(ws_prefix_len(l) as int, leading_group_end(l)))
    } else {
        Seq::empty()
    }
}

/// A run of `n` space characters (empty when `n <= 0`).
pub open spec fn spaces(n: int) -> Seq<char> {
    Seq::new(if n <= 0 { 0 } else { n as nat }, |i: int| ' ')
}

/// How many spaces are inserted before relocated junk: enough to push it to
/// `col`, and none when the retained content already reaches that column.
pub open spec fn pad_len(col: int, sb: int) -> int {
    if col > sb { col - sb } else { 0 }
}

/// Trailing repositioning of one line: the maximal trailing junk-and-whitespace
/// run, if it holds at least one junk character, is replaced by padding spaces
/// followed by the junk characters of the run; a trailing run of pure
/// whitespace leaves the line untouched.
pub open spec fn spec_reposition_trailing(l: Seq<char>, col: int) -> Seq<char> {
    let k = junkws_suffix_len(l) as int;
    if k == 0 {
        l
    } else {
        let sb = l.len() - k;
        let junk = strip_ws(l.subrange(sb, l.len() as int));
        if junk.len() == 0 {
            l
        } else {
            l.subrange(0, sb) + spaces(pad_len(col, sb)) + junk
        }
    }
}

/// One step of the repositioning pass at index `i`: extract the leading junk
/// run, reposition the trailing run of what remains, and append the staged
/// junk to the previous line (junk staged at the very first line has no
/// predecessor and is dropped).
pub open spec fn spec_process_line(lines: Seq<Seq<char>>, i: int, col: int) -> Seq<Seq<char>> {
    let l = lines[i];
    let l2 = spec_reposition_trailing(after_leading_extraction(l), col);
    let lines2 = lines.update(i, l2);
    if has_leading_junk(l) && i >= 1 {
        lines2.update(i - 1, lines2[i - 1] + staged_junk(l))
    } else {
        lines2
    }
}

/// The repositioning pass applied at indices `i, i - 1, ..., 0`.
pub open spec fn spec_pass2_from(lines: Seq<Seq<char>>, i: int, col: int) -> Seq<Seq<char>>
    decreases i + 1,
{
    if i < 0 {
        lines
    } else {
        spec_pass2_from(spec_process_line(lines, i, col), i - 1, col)
    }
}

/// The full repositioning pass, from the last line to the first.
pub open spec fn spec_pass2(lines: Seq<Seq<char>>, col: int) -> Seq<Seq<char>> {
    spec_pass2_from(lines, lines.len() - 1, col)
}

/// One step of the collapsing pass: a junk-only line is appended (whitespace
/// removed) onto the last line gathered so far; any other line starts a line
/// of its own.
pub open spec fn collapse_step(done: Seq<Seq<char>>, l: Seq<char>) -> Seq<Seq<char>> {
    if junk_only(l) && done.len() > 0 {
        done.update(done.len() - 1, done.last() + strip_ws(l))
    } else {
        done.push(l)
    }
}

pub open spec fn collapse_rec(done: Seq<Seq<char>>, rest: Seq<Seq<char>>) -> Seq<Seq<char>>
    decreases rest.len(),
{
    if rest.len() == 0 {
        done
    } else {
        collapse_rec(collapse_step(done, rest.first()), rest.drop_first())
    }
}

/// The collapsing pass: every line from the second onward whose content is
/// junk-only is merged into the line before it.
pub open spec fn spec_collapse(lines: Seq<Seq<char>>) -> Seq<Seq<char>> {
    if lines.len() == 0 {
        lines
    } else {
        collapse_rec(seq![lines.first()], lines.drop_first())
    }
}

/// Index of the first line feed in `s`, or `s.len()` if there is none.
pub open spec fn first_nl(s: Seq<char>) -> nat
    decreases s.len(),
{
    if s.len() == 0 {
        0
    } else if s.first() == '\n' {
        0
    } else {
        1 + first_nl(s.drop_first())
    }
}

/// A line with a carriage return immediately before its terminating line feed
/// loses that carriage return.
pub open spec fn chomp_cr(l: Seq<char>) -> Seq<char> {
    if l.len() > 0 && l.last() == '\r' {
        l.drop_last()
    } else {
        l
    }
}

/// Splitting a buffer into lines: segments terminated by a line feed, with a
/// carriage return before the line feed removed; a final line feed produces
/// no empty last line, and an empty buffer has no lines.
pub open spec fn spec_split_lines(s: Seq<char>) -> Seq<Seq<char>>
    decreases s.len(),
{
    if s.len() == 0 {
        Seq::empty()
    } else {
        let i = first_nl(s) as int;
        if i >= s.len() {
            seq![s]
        } else {
            seq![chomp_cr(s.subrange(0, i))] + spec_split_lines(
                s.subrange(i + 1, s.len() as int),
            )
        }
    }
}

/// Joining lines with a single line feed between each adjacent pair.
pub open spec fn spec_join_lines(lines: Seq<Seq<char>>) -> Seq<char>
    decreases lines.len(),
{
    if lines.len() == 0 {
        Seq::empty()
    } else if lines.len() == 1 {
        lines.first()
    } else {
        lines.first() + seq!['\n'] + spec_join_lines(lines.drop_first())
    }
}

/// The whole formatting operation: split into lines, collapse junk-only
/// lines, reposition junk at `col`, and join back into one buffer.
pub open spec fn spec_format(s: Seq<char>, col: int) -> Seq<char> {
    spec_join_lines(spec_pass2(spec_collapse(spec_split_lines(s)), col))
}

/// `ws_prefix_len` is the length of the maximal whitespace prefix.
pub proof fn lemma_ws_prefix_len(l: Seq<char>)
    ensures
        ws_prefix_len(l) <= l.len(),
        forall|k: int| 0 <= k < ws_prefix_len(l) ==> is_ws(#[trigger] l[k]),
        ws_prefix_len(l) < l.len() ==> !is_ws(l[ws_prefix_len(l) as int]),
    decreases l.len(),
{
    if l.len() == 0 || !is_ws(l.first()) {
    } else {
        lemma_ws_prefix_len(l.drop_first());
        assert(forall|k: int|
            0 <= k < ws_prefix_len(l) ==> is_ws(#[trigger] l[k])) by {
            assert forall|k: int| 0 <= k < ws_prefix_len(l) implies is_ws(#[trigger] l[k]) by {
                if k > 0 {
                    assert(l[k] == l.drop_first()[k - 1]);
                }
            }
        }
    }
}

/// `junkws_prefix_len` is the length of the maximal junk-or-whitespace prefix.
pub proof fn lemma_junkws_prefix_len(l: Seq<char>)
    ensures
        junkws_prefix_len(l) <= l.len(),
        forall|k: int| 0 <= k < junkws_prefix_len(l) ==> is_junk_or_ws(#[trigger] l[k]),
        junkws_prefix_len(l) < l.len() ==> !is_junk_or_ws(l[junkws_prefix_len(l) as int]),
    decreases l.len(),
{
    if l.len() == 0 || !is_junk_or_ws(l.first()) {
    } else {
        lemma_junkws_prefix_len(l.drop_first());
        assert forall|k: int| 0 <= k < junkws_prefix_len(l) implies is_junk_or_ws(
            #[trigger] l[k],
        ) by {
            if k > 0 {
                assert(l[k] == l.drop_first()[k - 1]);
            }
        }
    }
}

/// `junkws_suffix_len` is the length of the maximal junk-or-whitespace suffix.
pub proof fn lemma_junkws_suffix_len(l: Seq<char>)
    ensures
        junkws_suffix_len(l) <= l.len(),
        forall|k: int|
            l.len() - junkws_suffix_len(l) <= k < l.len() ==> is_junk_or_ws(#[trigger] l[k]),
        junkws_suffix_len(l) < l.len() ==> !is_junk_or_ws(
            l[l.len() - junkws_suffix_len(l) - 1],
        ),
    decreases l.len(),
{
    if l.len() == 0 || !is_junk_or_ws(l.last()) {
    } else {
        lemma_junkws_suffix_len(l.drop_last());
        assert forall|k: int|
            l.len() - junkws_suffix_len(l) <= k < l.len() implies is_junk_or_ws(
            #[trigger] l[k],
        ) by {
            if k < l.len() - 1 {
                assert(l[k] == l.drop_last()[k]);
            }
        }
    }
}

/// A maximal whitespace prefix of length `p` pins `ws_prefix_len` down.
pub proof fn lemma_ws_prefix_is(l: Seq<char>, p: int)
    requires
        0 <= p <= l.len(),
        forall|k: int| 0 <= k < p ==> is_ws(#[trigger] l[k]),
        p < l.len() ==> !is_ws(l[p]),
    ensures
        ws_prefix_len(l) == p,
{
    lemma_ws_prefix_len(l);
    let w = ws_prefix_len(l) as int;
    if w < p {
        assert(is_ws(l[w]));
    }
    if p < w {
        assert(is_ws(l[p]));
    }
}

/// A maximal junk-or-whitespace suffix of length `k` pins
/// `junkws_suffix_len` down.
pub proof fn lemma_junkws_suffix_is(l: Seq<char>, k: int)
    requires
        0 <= k <= l.len(),
        forall|j: int| l.len() - k <= j < l.len() ==> is_junk_or_ws(#[trigger] l[j]),
        k < l.len() ==> !is_junk_or_ws(l[l.len() - k - 1]),
    ensures
        junkws_suffix_len(l) == k,
{
    lemma_junkws_suffix_len(l);
    let w = junkws_suffix_len(l) as int;
    if w < k {
        assert(is_junk_or_ws(l[l.len() - w - 1]));
    }
    if k < w {
        assert(is_junk_or_ws(l[l.len() - k - 1]));
    }
}

/// A first line feed at index `i` pins `first_nl` down.
pub proof fn lemma_first_nl_is(s: Seq<char>, i: int)
    requires
        0 <= i <= s.len(),
        forall|k: int| 0 <= k < i ==> #[trigger] s[k] != '\n',
        i < s.len() ==> s[i] == '\n',
    ensures
        first_nl(s) == i,
{
    lemma_first_nl(s);
    let f = first_nl(s) as int;
    if f < i {
        assert(s[f] != '\n');
    }
    if i < f {
        assert(s[i] != '\n');
    }
}

/// A sequence without whitespace characters is unchanged by `strip_ws`.
pub proof fn lemma_strip_ws_no_ws(s: Seq<char>)
    requires
        forall|i: int| 0 <= i < s.len() ==> !is_ws(#[trigger] s[i]),
    ensures
        strip_ws(s) == s,
    decreases s.len(),
{
    reveal(Seq::filter);
    if s.len() > 0 {
        lemma_strip_ws_no_ws(s.drop_last());
        assert(strip_ws(s) =~= s.drop_last().push(s.last()));
        assert(s.drop_last().push(s.last()) =~= s);
    }
}

/// Every character of `strip_ws(s)` is a non-whitespace character of `s`.
pub proof fn lemma_strip_ws_elements(s: Seq<char>)
    ensures
        forall|i: int| 0 <= i < strip_ws(s).len() ==> !is_ws(#[trigger] strip_ws(s)[i]),
        forall|i: int| 0 <= i < strip_ws(s).len() ==> s.contains(#[trigger] strip_ws(s)[i]),
    decreases s.len(),
{
    reveal(Seq::filter);
    if s.len() > 0 {
        lemma_strip_ws_elements(s.drop_last());
        assert forall|i: int| 0 <= i < strip_ws(s).len() implies s.contains(
            #[trigger] strip_ws(s)[i],
        ) by {
            let sub = strip_ws(s.drop_last());
            if i < sub.len() {
                let j = choose|j: int| 0 <= j < s.drop_last().len() && s.drop_last()[j] == sub[i];
                assert(s[j] == sub[i]);
            } else {
                assert(strip_ws(s)[i] == s.last());
                assert(s[s.len() - 1] == s.last());
            }
        }
    }
}

/// A sequence of whitespace characters strips to the empty sequence.
pub proof fn lemma_strip_ws_all_ws(s: Seq<char>)
    requires
        forall|i: int| 0 <= i < s.len() ==> is_ws(#[trigger] s[i]),
    ensures
        strip_ws(s).len() == 0,
    decreases s.len(),
{
    reveal(Seq::filter);
    if s.len() > 0 {
        lemma_strip_ws_all_ws(s.drop_last());
    }
}

/// Stripping whitespace from a junk-and-whitespace run leaves junk only.
pub proof fn lemma_strip_ws_junkws(s: Seq<char>)
    requires
        forall|i: int| 0 <= i < s.len() ==> is_junk_or_ws(#[trigger] s[i]),
    ensures
        all_junk(strip_ws(s)),
{
    lemma_strip_ws_elements(s);
    assert forall|i: int| 0 <= i < strip_ws(s).len() implies is_junk(
        #[trigger] strip_ws(s)[i],
    ) by {
        let c = strip_ws(s)[i];
        let j = choose|j: int| 0 <= j < s.len() && s[j] == c;
        assert(is_junk_or_ws(s[j]));
    }
}

/// A line with a character that is neither junk nor whitespace is not
/// junk-only.
pub proof fn lemma_content_not_junk_only(l: Seq<char>, i: int)
    requires
        0 <= i < l.len(),
        is_content(l[i]),
    ensures
        !junk_only(l),
{
    if junk_only(l) {
        l.lemma_filter_contains(|c: char| !is_ws(c), i);
        assert(strip_ws(l).contains(l[i]));
        let j = choose|j: int| 0 <= j < strip_ws(l).len() && strip_ws(l)[j] == l[i];
        assert(is_junk(strip_ws(l)[j]));
    }
}

/// Joining after appending one line appends the line after a line feed
/// (or is that line alone when nothing was there).
pub proof fn lemma_join_push(ls: Seq<Seq<char>>, l: Seq<char>)
    ensures
        ls.len() == 0 ==> spec_join_lines(ls.push(l)) == l,
        ls.len() > 0 ==> spec_join_lines(ls.push(l)) == spec_join_lines(ls) + seq!['\n'] + l,
    decreases ls.len(),
{
    if ls.len() == 0 {
        assert(ls.push(l).first() == l);
    } else {
        lemma_join_push(ls.drop_first(), l);
        assert(ls.push(l).drop_first() =~= ls.drop_first().push(l));
        assert(ls.push(l).first() == ls.first());
        if ls.len() == 1 {
            assert(spec_join_lines(ls.push(l)) == ls.first() + seq!['\n'] + l);
            assert(spec_join_lines(ls) == ls.first());
        } else {
            assert(spec_join_lines(ls.push(l)) == ls.first() + seq!['\n'] + (spec_join_lines(
                ls.drop_first(),
            ) + seq!['\n'] + l));
            assert(ls.first() + seq!['\n'] + (spec_join_lines(ls.drop_first()) + seq!['\n'] + l)
                =~= (ls.first() + seq!['\n'] + spec_join_lines(ls.drop_first())) + seq!['\n'] + l);
        }
    }
}

/// `first_nl` is the index of the first line feed, or the length if none.
pub proof fn lemma_first_nl(s: Seq<char>)
    ensures
        first_nl(s) <= s.len(),
        forall|k: int| 0 <= k < first_nl(s) ==> #[trigger] s[k] != '\n',
        first_nl(s) < s.len() ==> s[first_nl(s) as int] == '\n',
    decreases s.len(),
{
    if s.len() == 0 || s.first() == '\n' {
    } else {
        lemma_first_nl(s.drop_first());
        assert forall|k: int| 0 <= k < first_nl(s) implies #[trigger] s[k] != '\n' by {
            if k > 0 {
                assert(s[k] == s.drop_first()[k - 1]);
            }
        }
    }
}

} // verus!
