//! The executable formatter, verified against the model in [`crate::model`].

use vstd::prelude::*;

use crate::model::{
    after_leading_extraction, all_junk, chomp_cr, collapse_rec, collapse_step, first_nl,
    has_leading_junk,
    is_junk, is_junk_or_ws, is_ws, junk_only, junkws_prefix_len, junkws_suffix_len,
    leading_group_end, lemma_first_nl, lemma_join_push, lemma_junkws_prefix_len,
    lemma_junkws_suffix_len, lemma_ws_prefix_len, pad_len, spaces, spec_collapse, spec_format,
    spec_join_lines, spec_pass2, spec_pass2_from, spec_process_line, spec_reposition_trailing,
    spec_split_lines, staged_junk, strip_ws, ws_prefix_len,
};
use vstd::string::StrSliceExecFns;

verus! {

/// The formatting core defines no error conditions: no function of this
/// crate ever constructs a value of this type.
#[derive(Debug)]
pub enum Error {
    Unreachable,
}

/// A line-reflow formatter: merges junk-only lines into their predecessor and
/// right-aligns trailing junk at a configured column.
pub struct Formatter {
    junk_column: usize,
}

impl Formatter {
    /// The configured target column for relocated junk.
    pub closed spec fn col(&self) -> int {
        self.junk_column as int
    }

    /// Sets the target column for relocated junk.
    pub fn junk_column(&mut self, junk_column: usize)
        ensures
            final(self).col() == junk_column as int,
    {
        self.junk_column = junk_column;
    }
}

impl Default for Formatter {
    /// A formatter with the default target column of 120.
    fn default() -> (r: Self)
        ensures
            r.col() == 120,
    {
        Formatter { junk_column: 120 }
    }
}

/// Whether `c` is a junk character.
fn is_junk_char(c: char) -> (b: bool)
    ensures
        b == is_junk(c),
{
    c == '{' || c == '}' || c == ';'
}

/// Whether `c` has the Unicode `White_Space` property.
fn is_ws_char(c: char) -> (b: bool)
    ensures
        b == is_ws(c),
{
    c == '\u{0009}' || c == '\u{000A}' || c == '\u{000B}' || c == '\u{000C}' || c == '\u{000D}'
        || c == '\u{0020}' || c == '\u{0085}' || c == '\u{00A0}' || c == '\u{1680}'
        || c == '\u{2000}' || c == '\u{2001}' || c == '\u{2002}' || c == '\u{2003}'
        || c == '\u{2004}' || c == '\u{2005}' || c == '\u{2006}' || c == '\u{2007}'
        || c == '\u{2008}' || c == '\u{2009}' || c == '\u{200A}' || c == '\u{2028}'
        || c == '\u{2029}' || c == '\u{202F}' || c == '\u{205F}' || c == '\u{3000}'
}

/// The characters of `l` with all whitespace removed.
fn strip_ws_vec(l: &Vec<char>) -> (r: Vec<char>)
    ensures
        r@ == strip_ws(l@),
{
    let mut r: Vec<char> = Vec::new();
    let mut i: usize = 0;
    assert(l@.subrange(0, 0) =~= Seq::<char>::empty());
    assert(Seq::<char>::empty().filter(|c: char| !is_ws(c)) =~= Seq::<char>::empty()) by {
        reveal(Seq::filter);
    }
    while i < l.len()
        invariant
            i <= l.len(),
            r@ == strip_ws(l@.subrange(0, i as int)),
        decreases l.len() - i,
    {
        let c = l[i];
        proof {
            assert(l@.subrange(0, i as int + 1) =~= l@.subrange(0, i as int).push(c));
            l@.subrange(0, i as int).lemma_filter_push(c, |c: char| !is_ws(c));
        }
        if !is_ws_char(c) {
            r.push(c);
        }
        i += 1;
    }
    assert(l@.subrange(0, l.len() as int) =~= l@);
    r
}

/// Length of the whitespace run at the start of `l`.
fn ws_prefix(l: &Vec<char>) -> (p: usize)
    ensures
        p == ws_prefix_len(l@),
{
    let mut i: usize = 0;
    while i < l.len() && is_ws_char(l[i])
        invariant
            i <= l.len(),
            forall|k: int| 0 <= k < i ==> is_ws(#[trigger] l@[k]),
        decreases l.len() - i,
    {
        i += 1;
    }
    proof {
        lemma_ws_prefix_len(l@);
    }
    i
}

/// Length of the junk-or-whitespace run of `l` that starts at index `start`.
fn junkws_run_from(l: &Vec<char>, start: usize) -> (r: usize)
    requires
        start <= l@.len(),
    ensures
        r == junkws_prefix_len(l@.subrange(start as int, l@.len() as int)),
        start + r <= l@.len(),
{
    let ghost tail = l@.subrange(start as int, l@.len() as int);
    let mut i: usize = start;
    while i < l.len() && (is_junk_char(l[i]) || is_ws_char(l[i]))
        invariant
            start <= i <= l.len(),
            forall|k: int| start <= k < i ==> is_junk_or_ws(#[trigger] l@[k]),
        decreases l.len() - i,
    {
        i += 1;
    }
    proof {
        lemma_junkws_prefix_len(tail);
        assert(forall|k: int| 0 <= k < tail.len() ==> tail[k] == l@[start + k]);
        assert forall|k: int| 0 <= k < i - start implies is_junk_or_ws(#[trigger] tail[k]) by {
            assert(tail[k] == l@[start + k]);
        }
        if i < l.len() {
            assert(tail[i - start] == l@[i as int]);
        }
    }
    i - start
}

/// Length of the junk-or-whitespace run at the end of `l`.
fn junkws_suffix(l: &Vec<char>) -> (k: usize)
    ensures
        k == junkws_suffix_len(l@),
        k <= l@.len(),
{
    let mut i: usize = l.len();
    while i > 0 && (is_junk_char(l[i - 1]) || is_ws_char(l[i - 1]))
        invariant
            i <= l.len(),
            forall|k: int| i <= k < l.len() ==> is_junk_or_ws(#[trigger] l@[k]),
        decreases i,
    {
        i -= 1;
    }
    proof {
        lemma_junkws_suffix_len(l@);
    }
    l.len() - i
}

/// The characters of `l` from `from` (inclusive) to `to` (exclusive).
fn copy_range(l: &Vec<char>, from: usize, to: usize) -> (r: Vec<char>)
    requires
        from <= to <= l@.len(),
    ensures
        r@ == l@.subrange(from as int, to as int),
{
    let mut r: Vec<char> = Vec::new();
    let mut i: usize = from;
    while i < to
        invariant
            from <= i <= to <= l@.len(),
            r@ == l@.subrange(from as int, i as int),
        decreases to - i,
    {
        r.push(l[i]);
        proof {
            assert(l@.subrange(from as int, i as int + 1) =~= l@.subrange(
                from as int,
                i as int,
            ).push(l@[i as int]));
        }
        i += 1;
    }
    r
}

/// Appends all characters of `src` onto `dst`.
fn append_vec(dst: &mut Vec<char>, src: &Vec<char>)
    ensures
        final(dst)@ == old(dst)@ + src@,
{
    let mut i: usize = 0;
    while i < src.len()
        invariant
            i <= src.len(),
            dst@ == old(dst)@ + src@.subrange(0, i as int),
        decreases src.len() - i,
    {
        dst.push(src[i]);
        proof {
            assert(old(dst)@ + src@.subrange(0, i as int + 1) =~= (old(dst)@ + src@.subrange(
                0,
                i as int,
            )).push(src@[i as int]));
        }
        i += 1;
    }
    proof {
        assert(src@.subrange(0, src@.len() as int) =~= src@);
    }
}

/// Appends `n` space characters onto `dst`.
fn push_spaces(dst: &mut Vec<char>, n: usize)
    ensures
        final(dst)@ == old(dst)@ + spaces(n as int),
{
    let mut i: usize = 0;
    while i < n
        invariant
            i <= n,
            dst@ == old(dst)@ + spaces(i as int),
        decreases n - i,
    {
        dst.push(' ');
        proof {
            assert(old(dst)@ + spaces(i as int + 1) =~= (old(dst)@ + spaces(i as int)).push(' '));
        }
        i += 1;
    }
}

/// The sequence of line contents held by a sequence of line vectors.
pub open spec fn lines_view(ls: Seq<Vec<char>>) -> Seq<Seq<char>> {
    ls.map_values(|l: Vec<char>| l@)
}

impl Formatter {
    /// One step of the repositioning pass on the line at `idx`: move the
    /// line's leading junk run onto the end of the previous line, and
    /// right-align its trailing junk run at the configured column.
    fn process_line(&self, lines: &mut Vec<Vec<char>>, idx: usize)
        requires
            idx < old(lines)@.len(),
        ensures
            lines_view(final(lines)@) == spec_process_line(
                lines_view(old(lines)@),
                idx as int,
                self.col(),
            ),
    {
        let ghost l0 = old(lines)@[idx as int]@;
        let ghost col = self.col();
        let n = lines[idx].len();
        let p = ws_prefix(&lines[idx]);
        let mut staged: Option<Vec<char>> = None;
        let mut newline: Vec<char>;
        if p >= 1 && p < n && is_junk_char(lines[idx][p]) {
            assert(has_leading_junk(l0));
            let r = junkws_run_from(&lines[idx], p);
            let group = copy_range(&lines[idx], p, p + r);
            let junk = strip_ws_vec(&group);
            let mut nl = copy_range(&lines[idx], 0, p);
            let tail = copy_range(&lines[idx], p + r, n);
            append_vec(&mut nl, &tail);
            proof {
                assert(leading_group_end(l0) == p + r);
                assert(junk@ == staged_junk(l0));
                assert(nl@ == after_leading_extraction(l0));
            }
            staged = Some(junk);
            newline = nl;
        } else {
            assert(!has_leading_junk(l0));
            newline = copy_range(&lines[idx], 0, n);
            assert(newline@ == after_leading_extraction(l0)) by {
                assert(l0.subrange(0, l0.len() as int) =~= l0);
            }
        }
        let ghost l1 = newline@;
        let k = junkws_suffix(&newline);
        let m = newline.len();
        let outline: Vec<char>;
        if k == 0 {
            outline = newline;
            assert(outline@ == spec_reposition_trailing(l1, col));
        } else {
            let sb = m - k;
            let run = copy_range(&newline, sb, m);
            let junk = strip_ws_vec(&run);
            if junk.len() == 0 {
                outline = newline;
                assert(outline@ == spec_reposition_trailing(l1, col));
            } else {
                let mut nl2 = copy_range(&newline, 0, sb);
                let pad = self.junk_column.saturating_sub(sb);
                assert(pad == pad_len(col, sb as int));
                push_spaces(&mut nl2, pad);
                append_vec(&mut nl2, &junk);
                outline = nl2;
                assert(outline@ == spec_reposition_trailing(l1, col));
            }
        }
        lines[idx] = outline;
        let ghost mid = lines@;
        proof {
            assert(lines_view(mid) =~= lines_view(old(lines)@).update(idx as int, outline@));
        }
        if idx >= 1 {
            if let Some(junk) = staged {
                let mut prev = copy_range(&lines[idx - 1], 0, lines[idx - 1].len());
                proof {
                    assert(lines[idx - 1]@.subrange(0, lines[idx - 1]@.len() as int) =~= lines[idx
                        - 1]@);
                }
                append_vec(&mut prev, &junk);
                lines[idx - 1] = prev;
                proof {
                    assert(lines_view(lines@) =~= lines_view(mid).update(
                        idx - 1,
                        lines_view(mid)[idx - 1] + junk@,
                    ));
                }
            }
        }
    }
}

impl Formatter {
    /// The collapsing pass: every line from the second onward that holds
    /// junk and whitespace only (with at least one junk character) is
    /// appended, whitespace removed, onto the line before it.
    fn collapse_lines(&self, lines: &mut Vec<Vec<char>>)
        ensures
            lines_view(final(lines)@) == spec_collapse(lines_view(old(lines)@)),
    {
        let ghost orig = lines_view(lines@);
        if lines.len() == 0 {
            return ;
        }
        let mut done: Vec<Vec<char>> = Vec::new();
        let first = copy_range(&lines[0], 0, lines[0].len());
        proof {
            assert(lines[0]@.subrange(0, lines[0]@.len() as int) =~= lines[0]@);
        }
        done.push(first);
        proof {
            assert(lines_view(done@) =~= seq![orig.first()]);
            assert(orig.skip(1) =~= orig.drop_first());
        }
        let mut i: usize = 1;
        while i < lines.len()
            invariant
                1 <= i <= lines@.len(),
                lines_view(lines@) == orig,
                done@.len() >= 1,
                collapse_rec(lines_view(done@), orig.skip(i as int)) == spec_collapse(orig),
            decreases lines@.len() - i,
        {
            let ghost rest = orig.skip(i as int);
            let ghost cur = orig[i as int];
            let ghost dv = lines_view(done@);
            proof {
                assert(rest.first() == cur);
                assert(rest.drop_first() =~= orig.skip(i as int + 1));
                assert(cur == lines[i as int]@);
            }
            let s = strip_ws_vec(&lines[i]);
            if s.len() > 0 && all_junk_vec(&s) {
                assert(junk_only(cur));
                let popped = done.pop();
                let mut last = popped.unwrap();
                append_vec(&mut last, &s);
                done.push(last);
                proof {
                    assert(lines_view(done@) =~= dv.update(dv.len() - 1, dv.last() + strip_ws(
                        cur,
                    )));
                    assert(lines_view(done@) == collapse_step(dv, cur));
                }
            } else {
                assert(!junk_only(cur));
                let c = copy_range(&lines[i], 0, lines[i].len());
                proof {
                    assert(lines[i as int]@.subrange(0, lines[i as int]@.len() as int) =~= lines[i
                        as int]@);
                }
                done.push(c);
                proof {
                    assert(lines_view(done@) =~= dv.push(cur));
                    assert(lines_view(done@) == collapse_step(dv, cur));
                }
            }
            proof {
                assert(collapse_rec(dv, rest) == collapse_rec(lines_view(done@), orig.skip(
                    i as int + 1,
                )));
            }
            i += 1;
        }
        proof {
            assert(orig.skip(orig.len() as int) =~= Seq::<Seq<char>>::empty());
        }
        *lines = done;
    }
}

/// Splits a buffer into its lines: segments ended by a line feed (with a
/// carriage return before the line feed dropped); a final line feed opens
/// no further line.
fn split_to_lines(cs: &Vec<char>) -> (r: Vec<Vec<char>>)
    ensures
        lines_view(r@) == spec_split_lines(cs@),
{
    let n = cs.len();
    let mut out: Vec<Vec<char>> = Vec::new();
    let mut pos: usize = 0;
    proof {
        assert(cs@.skip(0) =~= cs@);
        assert(lines_view(out@) + spec_split_lines(cs@) =~= spec_split_lines(cs@));
    }
    while pos < n
        invariant
            pos <= n,
            n == cs@.len(),
            spec_split_lines(cs@) == lines_view(out@) + spec_split_lines(cs@.skip(pos as int)),
        decreases n - pos,
    {
        let ghost rest = cs@.skip(pos as int);
        let mut j: usize = pos;
        while j < n && cs[j] != '\n'
            invariant
                pos <= j <= n,
                n == cs@.len(),
                forall|k: int| pos <= k < j ==> #[trigger] cs@[k] != '\n',
            decreases n - j,
        {
            j += 1;
        }
        proof {
            lemma_first_nl(rest);
            assert(forall|k: int| 0 <= k < rest.len() ==> rest[k] == cs@[pos + k]);
            assert forall|k: int| 0 <= k < j - pos implies #[trigger] rest[k] != '\n' by {
                assert(rest[k] == cs@[pos + k]);
            }
            if j < n {
                assert(rest[j - pos] == cs@[j as int]);
            }
            assert(first_nl(rest) == j - pos);
        }
        if j < n {
            let line: Vec<char>;
            if j > pos && cs[j - 1] == '\r' {
                line = copy_range(cs, pos, j - 1);
            } else {
                line = copy_range(cs, pos, j);
            }
            proof {
                let seg = rest.subrange(0, j - pos);
                assert(seg =~= cs@.subrange(pos as int, j as int));
                if j > pos && cs@[j - 1] == '\r' {
                    assert(seg.drop_last() =~= cs@.subrange(pos as int, j - 1));
                }
                assert(line@ == chomp_cr(seg));
                assert(rest.subrange(j - pos + 1, rest.len() as int) =~= cs@.skip(j + 1));
                assert(spec_split_lines(rest) == seq![chomp_cr(seg)] + spec_split_lines(
                    cs@.skip(j + 1),
                ));
            }
            let ghost ov = lines_view(out@);
            out.push(line);
            proof {
                assert(lines_view(out@) =~= ov.push(line@));
                assert(ov + (seq![line@] + spec_split_lines(cs@.skip(j + 1))) =~= ov.push(line@)
                    + spec_split_lines(cs@.skip(j + 1)));
            }
            pos = j + 1;
        } else {
            let line = copy_range(cs, pos, n);
            proof {
                assert(line@ =~= rest);
                assert(spec_split_lines(rest) == seq![rest]);
            }
            let ghost ov = lines_view(out@);
            out.push(line);
            proof {
                assert(lines_view(out@) =~= ov.push(line@));
                assert(ov + seq![rest] =~= ov.push(line@));
                assert(cs@.skip(n as int) =~= Seq::<char>::empty());
                assert(lines_view(out@) + spec_split_lines(cs@.skip(n as int)) =~= lines_view(
                    out@,
                ));
            }
            pos = n;
        }
    }
    proof {
        assert(cs@.skip(pos as int) =~= Seq::<char>::empty());
        assert(lines_view(out@) + spec_split_lines(cs@.skip(pos as int)) =~= lines_view(out@));
    }
    out
}

/// Joins lines with a single line feed between each adjacent pair.
fn join_to_buffer(lines: &Vec<Vec<char>>) -> (r: Vec<char>)
    ensures
        r@ == spec_join_lines(lines_view(lines@)),
{
    let ghost lv = lines_view(lines@);
    let mut r: Vec<char> = Vec::new();
    let mut i: usize = 0;
    while i < lines.len()
        invariant
            i <= lines@.len(),
            lv == lines_view(lines@),
            r@ == spec_join_lines(lv.take(i as int)),
        decreases lines@.len() - i,
    {
        proof {
            lemma_join_push(lv.take(i as int), lv[i as int]);
            assert(lv.take(i as int).push(lv[i as int]) =~= lv.take(i as int + 1));
        }
        if i > 0 {
            r.push('\n');
            proof {
                assert(spec_join_lines(lv.take(i as int)) + seq!['\n'] =~= r@);
            }
        }
        append_vec(&mut r, &lines[i]);
        proof {
            if i > 0 {
                assert(r@ =~= spec_join_lines(lv.take(i as int)) + seq!['\n'] + lv[i as int]);
            }
        }
        i += 1;
    }
    proof {
        assert(lv.take(lv.len() as int) =~= lv);
    }
    r
}

/// The characters of `s`, in order.
fn str_to_chars(s: &str) -> (r: Vec<char>)
    ensures
        r@ == s@,
{
    let n = s.unicode_len();
    let mut r: Vec<char> = Vec::new();
    let mut i: usize = 0;
    while i < n
        invariant
            i <= n,
            n == s@.len(),
            r@ == s@.subrange(0, i as int),
        decreases n - i,
    {
        let c = s.get_char(i);
        proof {
            assert(s@.subrange(0, i as int + 1) =~= s@.subrange(0, i as int).push(s@[i as int]));
        }
        r.push(c);
        i += 1;
    }
    proof {
        assert(s@.subrange(0, n as int) =~= s@);
    }
    r
}

/// Relies on `core::iter::Iterator::collect` for `String`: it concatenates
/// the characters of the vector in order.
#[verifier::external_body]
fn chars_to_string(v: &Vec<char>) -> (r: String)
    ensures
        r@ == v@,
{
    v.iter().collect()
}

impl Formatter {
    /// Reformats the buffer in place: junk-only lines are merged into their
    /// predecessor and every line's junk runs are re-aligned at the
    /// configured column. Defined for every input and never fails.
    pub fn format(&self, content: &mut String) -> (r: Result<(), Error>)
        ensures
            r is Ok,
            final(content)@ == spec_format(old(content)@, self.col()),
    {
        let chars = str_to_chars(content.as_str());
        let mut lines = split_to_lines(&chars);
        self.collapse_lines(&mut lines);
        let ghost collapsed = lines_view(lines@);
        let ghost col = self.col();
        let mut i: usize = lines.len();
        while i > 0
            invariant
                col == self.col(),
                i <= lines@.len(),
                lines_view(lines@).len() == collapsed.len(),
                spec_pass2_from(lines_view(lines@), i as int - 1, col) == spec_pass2(
                    collapsed,
                    col,
                ),
            decreases i,
        {
            i -= 1;
            let ghost vold = lines_view(lines@);
            self.process_line(&mut lines, i);
            proof {
                assert(lines_view(lines@) == spec_process_line(vold, i as int, col));
                assert(spec_pass2_from(vold, i as int, col) == spec_pass2_from(
                    lines_view(lines@),
                    i as int - 1,
                    col,
                ));
                assert(lines_view(lines@).len() == vold.len());
            }
        }
        let joined = join_to_buffer(&lines);
        *content = chars_to_string(&joined);
        Ok(())
    }
}

/// Whether every character of `l` is junk.
fn all_junk_vec(l: &Vec<char>) -> (b: bool)
    ensures
        b == all_junk(l@),
{
    let mut i: usize = 0;
    while i < l.len()
        invariant
            i <= l.len(),
            forall|k: int| 0 <= k < i ==> is_junk(#[trigger] l@[k]),
        decreases l.len() - i,
    {
        if !is_junk_char(l[i]) {
            return false;
        }
        i += 1;
    }
    true
}

} // verus!
