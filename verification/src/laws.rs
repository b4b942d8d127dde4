//! General properties of the formatter, stated and proved over the model in
//! [`crate::model`].

use vstd::prelude::*;

use crate::model::{
    after_leading_extraction, all_junk, chomp_cr, collapse_rec, collapse_step, first_nl,
    has_leading_junk, is_content, is_junk, is_junk_or_ws, is_ws, junk_only, junkws_suffix_len,
    leading_group_end, lemma_content_not_junk_only, lemma_first_nl, lemma_junkws_prefix_len,
    lemma_junkws_suffix_len, lemma_strip_ws_all_ws, lemma_strip_ws_elements,
    lemma_first_nl_is, lemma_junkws_suffix_is, lemma_strip_ws_junkws, lemma_strip_ws_no_ws,
    lemma_ws_prefix_is, lemma_ws_prefix_len, pad_len, spaces, spec_collapse, spec_format,
    spec_join_lines, spec_pass2, spec_pass2_from, spec_process_line, spec_reposition_trailing,
    spec_split_lines, staged_junk, strip_ws, ws_prefix_len,
};
use vstd::multiset::Multiset;

verus! {

/// Column invariant: whenever the repositioning step extracts junk from a
/// line's trailing run, the result keeps the content before the run
/// unchanged, inserts spaces, and ends with the extracted junk; the junk
/// begins at or after the target column, or the content kept before it
/// already reached that column (in which case no spaces are inserted).
pub proof fn lemma_column_invariant(l: Seq<char>, col: int)
    requires
        strip_ws(l.subrange(l.len() - junkws_suffix_len(l), l.len() as int)).len() > 0,
    ensures
        ({
            let k = junkws_suffix_len(l) as int;
            let sb = l.len() - k;
            let junk = strip_ws(l.subrange(sb, l.len() as int));
            let start = sb + pad_len(col, sb);
            let r = spec_reposition_trailing(l, col);
            &&& r == l.subrange(0, sb) + spaces(pad_len(col, sb)) + junk
            &&& r.len() == start + junk.len()
            &&& start >= col || sb >= col
            &&& all_junk(junk)
            &&& forall|j: int| sb <= j < start ==> r[j] == ' '
            &&& forall|j: int| 0 <= j < sb ==> r[j] == l[j]
        }),
{
    lemma_junkws_suffix_len(l);
    let k = junkws_suffix_len(l) as int;
    if k == 0 {
        assert(l.subrange(l.len() - 0, l.len() as int) =~= Seq::<char>::empty());
        reveal(Seq::filter);
        assert(false);
    }
    let sb = l.len() - k;
    let run = l.subrange(sb, l.len() as int);
    assert forall|i: int| 0 <= i < run.len() implies is_junk_or_ws(#[trigger] run[i]) by {
        assert(run[i] == l[sb + i]);
    }
    lemma_strip_ws_junkws(run);
    let junk = strip_ws(run);
    let r = spec_reposition_trailing(l, col);
    let start = sb + pad_len(col, sb);
    assert(r == l.subrange(0, sb) + spaces(pad_len(col, sb)) + junk);
    assert forall|j: int| sb <= j < start implies r[j] == ' ' by {
        assert(r[j] == spaces(pad_len(col, sb))[j - sb]);
    }
    assert forall|j: int| 0 <= j < sb implies r[j] == l[j] by {
        assert(r[j] == l.subrange(0, sb)[j]);
    }
}

/// A line whose trailing junk-and-whitespace run holds no junk character —
/// it merely ends in whitespace, or in none — is not modified by the
/// repositioning step.
pub proof fn lemma_trailing_ws_only_untouched(l: Seq<char>, col: int)
    requires
        strip_ws(l.subrange(l.len() - junkws_suffix_len(l), l.len() as int)).len() == 0,
    ensures
        spec_reposition_trailing(l, col) == l,
{
    lemma_junkws_suffix_len(l);
}

/// A line in which no junk character occurs is never merged into its
/// predecessor by the collapsing pass, stages no leading junk, and is left
/// exactly as it is by the repositioning step — trailing whitespace with no
/// junk is not touched.
pub proof fn lemma_junk_free_line_untouched(l: Seq<char>, col: int)
    requires
        forall|i: int| 0 <= i < l.len() ==> !is_junk(#[trigger] l[i]),
    ensures
        !junk_only(l),
        !has_leading_junk(l),
        after_leading_extraction(l) == l,
        spec_reposition_trailing(l, col) == l,
{
    lemma_ws_prefix_len(l);
    lemma_junkws_suffix_len(l);
    lemma_strip_ws_elements(l);
    if junk_only(l) {
        let c = strip_ws(l)[0];
        let j = choose|j: int| 0 <= j < l.len() && l[j] == c;
        assert(false);
    }
    let k = junkws_suffix_len(l) as int;
    if k > 0 {
        let sb = l.len() - k;
        let run = l.subrange(sb, l.len() as int);
        assert forall|i: int| 0 <= i < run.len() implies is_ws(#[trigger] run[i]) by {
            assert(run[i] == l[sb + i]);
            assert(is_junk_or_ws(l[sb + i]));
        }
        lemma_strip_ws_all_ws(run);
    }
}

/// A line consisting of whitespace alone is never merged into its
/// predecessor by the collapsing pass and is left exactly as it is by the
/// repositioning step.
pub proof fn lemma_ws_only_line_untouched(l: Seq<char>, col: int)
    requires
        forall|i: int| 0 <= i < l.len() ==> is_ws(#[trigger] l[i]),
    ensures
        !junk_only(l),
        after_leading_extraction(l) == l,
        spec_reposition_trailing(l, col) == l,
{
    assert forall|i: int| 0 <= i < l.len() implies !is_junk(#[trigger] l[i]) by {
        assert(is_ws(l[i]));
    }
    lemma_junk_free_line_untouched(l, col);
}

/// Whether the line holds at least one character that is neither junk nor
/// whitespace.
pub open spec fn line_has_content(l: Seq<char>) -> bool {
    exists|i: int| 0 <= i < l.len() && is_content(#[trigger] l[i])
}

proof fn lemma_concat_keeps_content(a: Seq<char>, b: Seq<char>)
    requires
        line_has_content(a),
    ensures
        line_has_content(a + b),
{
    let i = choose|i: int| 0 <= i < a.len() && is_content(#[trigger] a[i]);
    assert((a + b)[i] == a[i]);
}

proof fn lemma_extraction_keeps_content(l: Seq<char>)
    requires
        line_has_content(l),
    ensures
        line_has_content(after_leading_extraction(l)),
{
    if has_leading_junk(l) {
        lemma_ws_prefix_len(l);
        let p = ws_prefix_len(l) as int;
        let tail = l.subrange(p, l.len() as int);
        lemma_junkws_prefix_len(tail);
        let ge = leading_group_end(l);
        let i = choose|i: int| 0 <= i < l.len() && is_content(#[trigger] l[i]);
        assert(i >= p);
        if i < ge {
            assert(tail[i - p] == l[i]);
            assert(is_junk_or_ws(tail[i - p]));
            assert(false);
        }
        let res = after_leading_extraction(l);
        assert(res[p + (i - ge)] == l.subrange(ge, l.len() as int)[i - ge]);
        assert(is_content(res[p + (i - ge)]));
    }
}

proof fn lemma_reposition_keeps_content(l: Seq<char>, col: int)
    requires
        line_has_content(l),
    ensures
        line_has_content(spec_reposition_trailing(l, col)),
{
    let r = spec_reposition_trailing(l, col);
    if r != l {
        lemma_junkws_suffix_len(l);
        let k = junkws_suffix_len(l) as int;
        let sb = l.len() - k;
        let i = choose|i: int| 0 <= i < l.len() && is_content(#[trigger] l[i]);
        assert(i < sb);
        assert(r[i] == l.subrange(0, sb)[i]);
        assert(is_content(r[i]));
    }
}

proof fn lemma_process_line_keeps_content(lines: Seq<Seq<char>>, i: int, col: int)
    requires
        0 <= i < lines.len(),
        forall|j: int| 1 <= j < lines.len() ==> line_has_content(#[trigger] lines[j]),
    ensures
        spec_process_line(lines, i, col).len() == lines.len(),
        forall|j: int|
            1 <= j < lines.len() ==> line_has_content(#[trigger] spec_process_line(
                lines,
                i,
                col,
            )[j]),
{
    let out = spec_process_line(lines, i, col);
    assert forall|j: int| 1 <= j < lines.len() implies line_has_content(#[trigger] out[j]) by {
        if j == i {
            lemma_extraction_keeps_content(lines[i]);
            lemma_reposition_keeps_content(after_leading_extraction(lines[i]), col);
        } else if j == i - 1 && has_leading_junk(lines[i]) {
            lemma_concat_keeps_content(lines[j], staged_junk(lines[i]));
        } else {
            assert(out[j] == lines[j]);
        }
    }
}

proof fn lemma_pass2_from_keeps_content(lines: Seq<Seq<char>>, i: int, col: int)
    requires
        i < lines.len(),
        forall|j: int| 1 <= j < lines.len() ==> line_has_content(#[trigger] lines[j]),
    ensures
        spec_pass2_from(lines, i, col).len() == lines.len(),
        forall|j: int|
            1 <= j < lines.len() ==> line_has_content(#[trigger] spec_pass2_from(
                lines,
                i,
                col,
            )[j]),
    decreases i + 1,
{
    if i >= 0 {
        lemma_process_line_keeps_content(lines, i, col);
        lemma_pass2_from_keeps_content(spec_process_line(lines, i, col), i - 1, col);
    }
}

proof fn lemma_not_junk_only_has_content(l: Seq<char>)
    requires
        strip_ws(l).len() > 0,
        !junk_only(l),
    ensures
        line_has_content(l),
{
    lemma_strip_ws_elements(l);
    let j = choose|j: int| 0 <= j < strip_ws(l).len() && !is_junk(#[trigger] strip_ws(l)[j]);
    let c = strip_ws(l)[j];
    let k = choose|k: int| 0 <= k < l.len() && l[k] == c;
    assert(is_content(l[k]));
}

proof fn lemma_collapse_rec_content(done: Seq<Seq<char>>, rest: Seq<Seq<char>>)
    requires
        done.len() >= 1,
        forall|j: int| 1 <= j < done.len() ==> line_has_content(#[trigger] done[j]),
        forall|j: int| 0 <= j < rest.len() ==> strip_ws(#[trigger] rest[j]).len() > 0,
    ensures
        collapse_rec(done, rest).len() >= 1,
        forall|j: int|
            1 <= j < collapse_rec(done, rest).len() ==> line_has_content(
                #[trigger] collapse_rec(done, rest)[j],
            ),
    decreases rest.len(),
{
    if rest.len() > 0 {
        let l = rest.first();
        let done2 = collapse_step(done, l);
        assert forall|j: int| 1 <= j < done2.len() implies line_has_content(
            #[trigger] done2[j],
        ) by {
            if junk_only(l) {
                if j == done.len() - 1 {
                    lemma_concat_keeps_content(done.last(), strip_ws(l));
                }
            } else {
                if j == done.len() {
                    lemma_not_junk_only_has_content(l);
                }
            }
        }
        assert forall|j: int| 0 <= j < rest.drop_first().len() implies strip_ws(
            #[trigger] rest.drop_first()[j],
        ).len() > 0 by {
            assert(rest.drop_first()[j] == rest[j + 1]);
        }
        lemma_collapse_rec_content(done2, rest.drop_first());
    }
}

/// Junk-only line elimination: when every line of the input has at least
/// one non-whitespace character, then after collapsing and repositioning no
/// line apart from the first consists of junk and whitespace with at least
/// one junk character present.
pub proof fn lemma_junk_only_elimination(s: Seq<char>, col: int)
    requires
        forall|i: int|
            0 <= i < spec_split_lines(s).len() ==> strip_ws(
                #[trigger] spec_split_lines(s)[i],
            ).len() > 0,
    ensures
        ({
            let out = spec_pass2(spec_collapse(spec_split_lines(s)), col);
            forall|i: int| 1 <= i < out.len() ==> !junk_only(#[trigger] out[i])
        }),
{
    let lines = spec_split_lines(s);
    let collapsed = spec_collapse(lines);
    let out = spec_pass2(collapsed, col);
    if lines.len() > 0 {
        assert forall|j: int| 0 <= j < lines.drop_first().len() implies strip_ws(
            #[trigger] lines.drop_first()[j],
        ).len() > 0 by {
            assert(lines.drop_first()[j] == lines[j + 1]);
        }
        lemma_collapse_rec_content(seq![lines.first()], lines.drop_first());
        lemma_pass2_from_keeps_content(collapsed, collapsed.len() - 1, col);
        assert forall|i: int| 1 <= i < out.len() implies !junk_only(#[trigger] out[i]) by {
            assert(line_has_content(out[i]));
            let j = choose|j: int| 0 <= j < out[i].len() && is_content(#[trigger] out[i][j]);
            lemma_content_not_junk_only(out[i], j);
        }
    }
}

/// Every character of `s.filter(pred)` satisfies `pred` and occurs in `s`.
proof fn lemma_filter_elements(s: Seq<char>, pred: spec_fn(char) -> bool)
    ensures
        forall|i: int| 0 <= i < s.filter(pred).len() ==> pred(#[trigger] s.filter(pred)[i]),
        forall|i: int| 0 <= i < s.filter(pred).len() ==> s.contains(#[trigger] s.filter(pred)[i]),
    decreases s.len(),
{
    reveal(Seq::filter);
    if s.len() > 0 {
        lemma_filter_elements(s.drop_last(), pred);
        assert forall|i: int| 0 <= i < s.filter(pred).len() implies s.contains(
            #[trigger] s.filter(pred)[i],
        ) by {
            let sub = s.drop_last().filter(pred);
            if i < sub.len() {
                let j = choose|j: int|
                    0 <= j < s.drop_last().len() && s.drop_last()[j] == sub[i];
                assert(s[j] == sub[i]);
            } else {
                assert(s.filter(pred)[i] == s.last());
                assert(s[s.len() - 1] == s.last());
            }
        }
    }
}

/// The multiset of content characters (neither junk nor whitespace) in `s`.
pub open spec fn content_of(s: Seq<char>) -> Multiset<char> {
    s.filter(|c: char| is_content(c)).to_multiset()
}

/// The content characters of a sequence of lines, all together.
pub open spec fn content_of_lines(ls: Seq<Seq<char>>) -> Multiset<char>
    decreases ls.len(),
{
    if ls.len() == 0 {
        Multiset::empty()
    } else {
        content_of(ls.first()).add(content_of_lines(ls.drop_first()))
    }
}

proof fn lemma_content_concat(a: Seq<char>, b: Seq<char>)
    ensures
        content_of(a + b) == content_of(a).add(content_of(b)),
{
    let pred = |c: char| is_content(c);
    Seq::filter_distributes_over_add(a, b, pred);
    vstd::seq_lib::lemma_multiset_commutative(a.filter(pred), b.filter(pred));
}

proof fn lemma_no_content_empty(s: Seq<char>)
    requires
        forall|i: int| 0 <= i < s.len() ==> is_junk_or_ws(#[trigger] s[i]),
    ensures
        content_of(s) == Multiset::<char>::empty(),
{
    broadcast use vstd::multiset::group_multiset_axioms;

    let pred = |c: char| is_content(c);
    lemma_filter_elements(s, pred);
    if s.filter(pred).len() > 0 {
        let c = s.filter(pred)[0];
        let j = choose|j: int| 0 <= j < s.len() && s[j] == c;
        assert(false);
    }
    s.filter(pred).to_multiset_ensures();
    vstd::multiset::lemma_multiset_empty_len(content_of(s));
    assert(content_of(s) =~= Multiset::<char>::empty());
}

/// A junk-only line holds no content character at all.
proof fn lemma_junk_only_no_content(l: Seq<char>)
    requires
        junk_only(l),
    ensures
        content_of(l) == Multiset::<char>::empty(),
{
    broadcast use vstd::multiset::group_multiset_axioms;

    let pred = |c: char| is_content(c);
    lemma_filter_elements(l, pred);
    if l.filter(pred).len() > 0 {
        let c = l.filter(pred)[0];
        let j = choose|j: int| 0 <= j < l.len() && l[j] == c;
        lemma_content_not_junk_only(l, j);
    }
    l.filter(pred).to_multiset_ensures();
    vstd::multiset::lemma_multiset_empty_len(content_of(l));
    assert(content_of(l) =~= Multiset::<char>::empty());
}

proof fn lemma_content_lines_empty()
    ensures
        content_of_lines(Seq::<Seq<char>>::empty()) == Multiset::<char>::empty(),
{
}

proof fn lemma_content_empty()
    ensures
        content_of(Seq::<char>::empty()) == Multiset::<char>::empty(),
{
    broadcast use vstd::multiset::group_multiset_axioms;

    reveal(Seq::filter);
    let e = Seq::<char>::empty();
    e.filter(|c: char| is_content(c)).to_multiset_ensures();
    vstd::multiset::lemma_multiset_empty_len(content_of(e));
    assert(content_of(e) =~= Multiset::<char>::empty());
}

proof fn lemma_content_lines_singleton(l: Seq<char>)
    ensures
        content_of_lines(seq![l]) == content_of(l),
{
    broadcast use vstd::multiset::group_multiset_axioms;

    lemma_content_lines_empty();
    assert(seq![l].first() == l);
    assert(seq![l].drop_first() =~= Seq::<Seq<char>>::empty());
    assert(content_of(l).add(Multiset::<char>::empty()) =~= content_of(l));
}

proof fn lemma_content_lines_push(ls: Seq<Seq<char>>, l: Seq<char>)
    ensures
        content_of_lines(ls.push(l)) == content_of_lines(ls).add(content_of(l)),
    decreases ls.len(),
{
    broadcast use vstd::multiset::group_multiset_axioms;

    if ls.len() == 0 {
        lemma_content_lines_empty();
        lemma_content_lines_singleton(l);
        assert(ls.push(l) =~= seq![l]);
        assert(ls =~= Seq::<Seq<char>>::empty());
        assert(Multiset::<char>::empty().add(content_of(l)) =~= content_of(l));
    } else {
        lemma_content_lines_push(ls.drop_first(), l);
        assert(ls.push(l).drop_first() =~= ls.drop_first().push(l));
        assert(ls.push(l).first() == ls.first());
        assert(content_of(ls.first()).add(
            content_of_lines(ls.drop_first()).add(content_of(l)),
        ) =~= content_of(ls.first()).add(content_of_lines(ls.drop_first())).add(content_of(l)));
    }
}

proof fn lemma_content_lines_update(
    ls: Seq<Seq<char>>,
    k: int,
    l2: Seq<char>,
    extra: Multiset<char>,
)
    requires
        0 <= k < ls.len(),
        content_of(l2) == content_of(ls[k]).add(extra),
    ensures
        content_of_lines(ls.update(k, l2)) == content_of_lines(ls).add(extra),
    decreases ls.len(),
{
    broadcast use vstd::multiset::group_multiset_axioms;

    if k == 0 {
        assert(ls.update(0, l2).drop_first() =~= ls.drop_first());
        assert(ls.update(0, l2).first() == l2);
        assert(content_of(ls[0]).add(extra).add(content_of_lines(ls.drop_first()))
            =~= content_of(ls[0]).add(content_of_lines(ls.drop_first())).add(extra));
    } else {
        assert(ls.drop_first()[k - 1] == ls[k]);
        lemma_content_lines_update(ls.drop_first(), k - 1, l2, extra);
        assert(ls.update(k, l2).drop_first() =~= ls.drop_first().update(k - 1, l2));
        assert(ls.update(k, l2).first() == ls.first());
        assert(content_of(ls.first()).add(content_of_lines(ls.drop_first()).add(extra))
            =~= content_of(ls.first()).add(content_of_lines(ls.drop_first())).add(extra));
    }
}

proof fn lemma_content_extraction(l: Seq<char>)
    ensures
        content_of(after_leading_extraction(l)) == content_of(l),
{
    broadcast use vstd::multiset::group_multiset_axioms;

    if has_leading_junk(l) {
        lemma_ws_prefix_len(l);
        let p = ws_prefix_len(l) as int;
        let tail = l.subrange(p, l.len() as int);
        lemma_junkws_prefix_len(tail);
        let ge = leading_group_end(l);
        let a = l.subrange(0, p);
        let g = l.subrange(p, ge);
        let b = l.subrange(ge, l.len() as int);
        assert(l =~= (a + g) + b);
        lemma_content_concat(a, g);
        lemma_content_concat(a + g, b);
        lemma_content_concat(a, b);
        assert forall|i: int| 0 <= i < g.len() implies is_junk_or_ws(#[trigger] g[i]) by {
            assert(g[i] == tail[i]);
        }
        lemma_no_content_empty(g);
        assert(content_of(a).add(Multiset::<char>::empty()).add(content_of(b)) =~= content_of(
            a,
        ).add(content_of(b)));
    }
}

proof fn lemma_content_reposition(l: Seq<char>, col: int)
    ensures
        content_of(spec_reposition_trailing(l, col)) == content_of(l),
{
    broadcast use vstd::multiset::group_multiset_axioms;

    let r = spec_reposition_trailing(l, col);
    if r != l {
        lemma_junkws_suffix_len(l);
        let k = junkws_suffix_len(l) as int;
        let sb = l.len() - k;
        let pre = l.subrange(0, sb);
        let run = l.subrange(sb, l.len() as int);
        let junk = strip_ws(run);
        let pad = spaces(pad_len(col, sb));
        assert(l =~= pre + run);
        lemma_content_concat(pre, run);
        assert forall|i: int| 0 <= i < run.len() implies is_junk_or_ws(#[trigger] run[i]) by {
            assert(run[i] == l[sb + i]);
        }
        lemma_no_content_empty(run);
        lemma_strip_ws_junkws(run);
        assert forall|i: int| 0 <= i < junk.len() implies is_junk_or_ws(#[trigger] junk[i]) by {
            assert(is_junk(junk[i]));
        }
        lemma_no_content_empty(junk);
        assert forall|i: int| 0 <= i < pad.len() implies is_junk_or_ws(#[trigger] pad[i]) by {
            assert(pad[i] == ' ');
        }
        lemma_no_content_empty(pad);
        lemma_content_concat(pre, pad);
        lemma_content_concat(pre + pad, junk);
        assert(content_of(pre).add(Multiset::<char>::empty()).add(Multiset::<char>::empty())
            =~= content_of(pre).add(Multiset::<char>::empty()));
    }
}

proof fn lemma_content_process_line(lines: Seq<Seq<char>>, i: int, col: int)
    requires
        0 <= i < lines.len(),
    ensures
        content_of_lines(spec_process_line(lines, i, col)) == content_of_lines(lines),
{
    broadcast use vstd::multiset::group_multiset_axioms;

    let l = lines[i];
    let l2 = spec_reposition_trailing(after_leading_extraction(l), col);
    lemma_content_extraction(l);
    lemma_content_reposition(after_leading_extraction(l), col);
    assert(content_of(l2) =~= content_of(l).add(Multiset::<char>::empty()));
    let lines2 = lines.update(i, l2);
    lemma_content_lines_update(lines, i, l2, Multiset::<char>::empty());
    assert(content_of_lines(lines2) =~= content_of_lines(lines));
    if has_leading_junk(l) && i >= 1 {
        let st = staged_junk(l);
        lemma_ws_prefix_len(l);
        let p = ws_prefix_len(l) as int;
        let tail = l.subrange(p, l.len() as int);
        lemma_junkws_prefix_len(tail);
        let group = l.subrange(p, leading_group_end(l));
        assert forall|j: int| 0 <= j < group.len() implies is_junk_or_ws(#[trigger] group[j]) by {
            assert(group[j] == tail[j]);
        }
        lemma_strip_ws_junkws(group);
        assert forall|j: int| 0 <= j < st.len() implies is_junk_or_ws(#[trigger] st[j]) by {
            assert(is_junk(st[j]));
        }
        lemma_no_content_empty(st);
        lemma_content_concat(lines2[i - 1], st);
        assert(content_of(lines2[i - 1] + st) =~= content_of(lines2[i - 1]).add(
            Multiset::<char>::empty(),
        ));
        lemma_content_lines_update(lines2, i - 1, lines2[i - 1] + st, Multiset::<char>::empty());
        assert(content_of_lines(spec_process_line(lines, i, col)) =~= content_of_lines(lines));
    }
}

proof fn lemma_content_pass2_from(lines: Seq<Seq<char>>, i: int, col: int)
    requires
        i < lines.len(),
    ensures
        content_of_lines(spec_pass2_from(lines, i, col)) == content_of_lines(lines),
    decreases i + 1,
{
    if i >= 0 {
        lemma_content_process_line(lines, i, col);
        lemma_content_pass2_from(spec_process_line(lines, i, col), i - 1, col);
    }
}

proof fn lemma_content_collapse_rec(done: Seq<Seq<char>>, rest: Seq<Seq<char>>)
    ensures
        content_of_lines(collapse_rec(done, rest)) == content_of_lines(done).add(
            content_of_lines(rest),
        ),
    decreases rest.len(),
{
    broadcast use vstd::multiset::group_multiset_axioms;

    if rest.len() == 0 {
        assert(content_of_lines(done).add(Multiset::<char>::empty()) =~= content_of_lines(done));
    } else {
        let l = rest.first();
        let done2 = collapse_step(done, l);
        lemma_content_collapse_rec(done2, rest.drop_first());
        if junk_only(l) && done.len() > 0 {
            lemma_junk_only_no_content(l);
            let st = strip_ws(l);
            assert forall|j: int| 0 <= j < st.len() implies is_junk_or_ws(#[trigger] st[j]) by {
                assert(is_junk(st[j]));
            }
            lemma_no_content_empty(st);
            lemma_content_concat(done.last(), st);
            assert(content_of(done.last() + st) =~= content_of(done.last()).add(
                Multiset::<char>::empty(),
            ));
            assert(done[done.len() - 1] == done.last());
            lemma_content_lines_update(
                done,
                done.len() - 1,
                done.last() + st,
                Multiset::<char>::empty(),
            );
            assert(content_of_lines(done2) =~= content_of_lines(done));
            assert(content_of_lines(done).add(
                Multiset::<char>::empty().add(content_of_lines(rest.drop_first())),
            ) =~= content_of_lines(done).add(content_of_lines(rest.drop_first())));
            assert(content_of_lines(rest) =~= Multiset::<char>::empty().add(
                content_of_lines(rest.drop_first()),
            ));
        } else {
            lemma_content_lines_push(done, l);
            assert(content_of_lines(done).add(content_of(l)).add(
                content_of_lines(rest.drop_first()),
            ) =~= content_of_lines(done).add(
                content_of(l).add(content_of_lines(rest.drop_first())),
            ));
        }
    }
}

proof fn lemma_content_split(s: Seq<char>)
    ensures
        content_of_lines(spec_split_lines(s)) == content_of(s),
    decreases s.len(),
{
    broadcast use vstd::multiset::group_multiset_axioms;

    if s.len() == 0 {
        assert(s =~= Seq::<char>::empty());
        lemma_content_empty();
        lemma_content_lines_empty();
    } else {
        lemma_first_nl(s);
        let i = first_nl(s) as int;
        if i >= s.len() {
            assert(spec_split_lines(s) == seq![s]);
            lemma_content_lines_singleton(s);
        } else {
            let seg = s.subrange(0, i);
            let mid = s.subrange(i, i + 1);
            let rest = s.subrange(i + 1, s.len() as int);
            assert(s =~= (seg + mid) + rest);
            lemma_content_concat(seg, mid);
            lemma_content_concat(seg + mid, rest);
            assert(mid[0] == s[i]);
            assert forall|j: int| 0 <= j < mid.len() implies is_junk_or_ws(#[trigger] mid[j]) by {
                assert(mid[j] == s[i]);
            }
            lemma_no_content_empty(mid);
            let line = chomp_cr(seg);
            if seg.len() > 0 && seg.last() == '\r' {
                assert(seg =~= line + seq!['\r']);
                lemma_content_concat(line, seq!['\r']);
                assert(seq!['\r'][0] == '\r');
                lemma_no_content_empty(seq!['\r']);
                assert(content_of(seg) =~= content_of(line));
            }
            lemma_content_split(rest);
            let out = spec_split_lines(s);
            assert(out == seq![line] + spec_split_lines(rest));
            assert(out.first() == line);
            assert(out.drop_first() =~= spec_split_lines(rest));
            assert(content_of_lines(out) == content_of(line).add(
                content_of_lines(spec_split_lines(rest)),
            ));
            assert(content_of(line).add(content_of(rest)) =~= content_of(seg).add(
                Multiset::<char>::empty(),
            ).add(content_of(rest)));
        }
    }
}

proof fn lemma_content_join(ls: Seq<Seq<char>>)
    ensures
        content_of(spec_join_lines(ls)) == content_of_lines(ls),
    decreases ls.len(),
{
    broadcast use vstd::multiset::group_multiset_axioms;

    if ls.len() == 0 {
        reveal(Seq::filter);
        let e = Seq::<char>::empty();
        e.filter(|c: char| is_content(c)).to_multiset_ensures();
        vstd::multiset::lemma_multiset_empty_len(content_of(e));
        assert(content_of(e) =~= Multiset::<char>::empty());
    } else if ls.len() == 1 {
        assert(ls.drop_first() =~= Seq::<Seq<char>>::empty());
        assert(content_of(ls.first()).add(Multiset::<char>::empty()) =~= content_of(ls.first()));
    } else {
        lemma_content_join(ls.drop_first());
        let nl = seq!['\n'];
        assert(nl[0] == '\n');
        lemma_no_content_empty(nl);
        lemma_content_concat(ls.first(), nl);
        lemma_content_concat(ls.first() + nl, spec_join_lines(ls.drop_first()));
        assert(content_of(ls.first()).add(Multiset::<char>::empty()).add(
            content_of_lines(ls.drop_first()),
        ) =~= content_of(ls.first()).add(content_of_lines(ls.drop_first())));
    }
}

/// No content loss: formatting never deletes or invents characters other
/// than junk and whitespace — the multiset of characters that are neither
/// whitespace nor junk is the same in the output as in the input.
pub proof fn lemma_no_content_loss(s: Seq<char>, col: int)
    ensures
        content_of(spec_format(s, col)) == content_of(s),
{
    broadcast use vstd::multiset::group_multiset_axioms;

    let lines = spec_split_lines(s);
    lemma_content_split(s);
    let collapsed = spec_collapse(lines);
    if lines.len() > 0 {
        lemma_content_collapse_rec(seq![lines.first()], lines.drop_first());
        lemma_content_lines_singleton(lines.first());
        assert(content_of_lines(collapsed) == content_of_lines(lines));
    }
    lemma_content_pass2_from(collapsed, collapsed.len() as int - 1, col);
    lemma_content_join(spec_pass2(collapsed, col));
}

/// Extraction leaves no leading junk behind: the first non-whitespace
/// character of the result, if any, is not junk.
proof fn lemma_extract_no_leading(l: Seq<char>)
    ensures
        !has_leading_junk(after_leading_extraction(l)),
{
    if has_leading_junk(l) {
        lemma_ws_prefix_len(l);
        let p = ws_prefix_len(l) as int;
        let tail = l.subrange(p, l.len() as int);
        lemma_junkws_prefix_len(tail);
        let ge = leading_group_end(l);
        let e = after_leading_extraction(l);
        assert forall|k: int| 0 <= k < p implies is_ws(#[trigger] e[k]) by {
            assert(e[k] == l.subrange(0, p)[k]);
        }
        if ge == l.len() {
            assert(e.len() == p);
            lemma_ws_prefix_is(e, p);
        } else {
            assert(tail[ge - p] == l[ge]);
            assert(!is_junk_or_ws(l[ge]));
            assert(e[p] == l.subrange(ge, l.len() as int)[0]);
            assert(e[p] == l[ge]);
            lemma_ws_prefix_is(e, p);
        }
    }
}

/// A line is settled when it stages no leading junk and the repositioning
/// step leaves it unchanged.
pub open spec fn settled(l: Seq<char>, col: int) -> bool {
    &&& !has_leading_junk(l)
    &&& spec_reposition_trailing(l, col) == l
}

/// Processing a line that holds at least one content character yields a
/// settled line: processing it again would change nothing.
proof fn lemma_process_result_settled(l: Seq<char>, col: int)
    requires
        line_has_content(l),
    ensures
        settled(spec_reposition_trailing(after_leading_extraction(l), col), col),
{
    lemma_extract_no_leading(l);
    lemma_extraction_keeps_content(l);
    let e = after_leading_extraction(l);
    lemma_junkws_suffix_len(e);
    let k = junkws_suffix_len(e) as int;
    let r = spec_reposition_trailing(e, col);
    if k == 0 {
        assert(r == e);
    } else {
        let sb = e.len() - k;
        let run = e.subrange(sb, e.len() as int);
        let junk = strip_ws(run);
        if junk.len() == 0 {
            assert(r == e);
        } else {
            let q = choose|q: int| 0 <= q < e.len() && is_content(#[trigger] e[q]);
            if q >= sb {
                assert(is_junk_or_ws(e[q]));
                assert(false);
            }
            assert(sb >= 1);
            assert(!is_junk_or_ws(e[sb - 1]));
            let pad = pad_len(col, sb);
            let sp = spaces(pad);
            assert(r == e.subrange(0, sb) + sp + junk);
            assert forall|j: int| 0 <= j < run.len() implies is_junk_or_ws(
                #[trigger] run[j],
            ) by {
                assert(run[j] == e[sb + j]);
            }
            lemma_strip_ws_junkws(run);
            assert(r.len() == sb + pad + junk.len());
            assert forall|j: int| sb <= j < r.len() implies is_junk_or_ws(#[trigger] r[j]) by {
                if j < sb + pad {
                    assert(r[j] == sp[j - sb]);
                    assert(r[j] == ' ');
                } else {
                    assert(r[j] == junk[j - sb - pad]);
                    assert(is_junk(junk[j - sb - pad]));
                }
            }
            assert(r[sb - 1] == e.subrange(0, sb)[sb - 1]);
            assert(r[sb - 1] == e[sb - 1]);
            lemma_junkws_suffix_is(r, r.len() - sb);
            let run2 = r.subrange(sb, r.len() as int);
            assert(run2 =~= sp + junk);
            Seq::filter_distributes_over_add(sp, junk, |c: char| !is_ws(c));
            assert forall|j: int| 0 <= j < sp.len() implies is_ws(#[trigger] sp[j]) by {
                assert(sp[j] == ' ');
            }
            lemma_strip_ws_all_ws(sp);
            assert forall|j: int| 0 <= j < junk.len() implies !is_ws(#[trigger] junk[j]) by {
                assert(is_junk(junk[j]));
            }
            lemma_strip_ws_no_ws(junk);
            assert(strip_ws(run2) =~= junk);
            let r2 = spec_reposition_trailing(r, col);
            assert(r2 == r.subrange(0, sb) + spaces(pad_len(col, sb)) + junk);
            assert(r.subrange(0, sb) =~= e.subrange(0, sb));
            assert(r2 =~= r);
            let q0 = ws_prefix_len(e) as int;
            lemma_ws_prefix_len(e);
            if q0 > sb - 1 {
                assert(is_ws(e[sb - 1]));
                assert(false);
            }
            assert forall|j: int| 0 <= j < q0 implies is_ws(#[trigger] r[j]) by {
                assert(r[j] == e.subrange(0, sb)[j]);
            }
            assert(r[q0] == e.subrange(0, sb)[q0]);
            assert(r[q0] == e[q0]);
            lemma_ws_prefix_is(r, q0);
            if q0 >= 1 {
                assert(!is_junk(e[q0]));
            }
        }
    }
}

proof fn lemma_process_line_keeps_content_all(lines: Seq<Seq<char>>, i: int, col: int)
    requires
        0 <= i < lines.len(),
        forall|j: int| 0 <= j < lines.len() ==> line_has_content(#[trigger] lines[j]),
    ensures
        spec_process_line(lines, i, col).len() == lines.len(),
        forall|j: int|
            0 <= j < lines.len() ==> line_has_content(#[trigger] spec_process_line(
                lines,
                i,
                col,
            )[j]),
{
    let out = spec_process_line(lines, i, col);
    assert forall|j: int| 0 <= j < lines.len() implies line_has_content(#[trigger] out[j]) by {
        if j == i {
            lemma_extraction_keeps_content(lines[i]);
            lemma_reposition_keeps_content(after_leading_extraction(lines[i]), col);
        } else if j == i - 1 && has_leading_junk(lines[i]) {
            lemma_concat_keeps_content(lines[j], staged_junk(lines[i]));
        } else {
            assert(out[j] == lines[j]);
        }
    }
}

/// After the repositioning pass over lines that all hold content, every
/// line is settled: a second pass would change none of them.
proof fn lemma_pass2_from_settled(lines: Seq<Seq<char>>, i: int, col: int)
    requires
        i < lines.len(),
        forall|j: int| 0 <= j < lines.len() ==> line_has_content(#[trigger] lines[j]),
        forall|j: int| i < j < lines.len() ==> settled(#[trigger] lines[j], col),
    ensures
        spec_pass2_from(lines, i, col).len() == lines.len(),
        forall|j: int|
            0 <= j < lines.len() ==> line_has_content(#[trigger] spec_pass2_from(
                lines,
                i,
                col,
            )[j]),
        forall|j: int|
            0 <= j < lines.len() ==> settled(#[trigger] spec_pass2_from(lines, i, col)[j], col),
    decreases i + 1,
{
    if i >= 0 {
        let mid = spec_process_line(lines, i, col);
        lemma_process_line_keeps_content_all(lines, i, col);
        lemma_process_result_settled(lines[i], col);
        assert forall|j: int| i - 1 < j < mid.len() implies settled(#[trigger] mid[j], col) by {
            if j > i {
                assert(mid[j] == lines[j]);
            }
        }
        lemma_pass2_from_settled(mid, i - 1, col);
    }
}

/// The repositioning pass leaves a sequence of settled lines unchanged.
proof fn lemma_pass2_of_settled(lines: Seq<Seq<char>>, i: int, col: int)
    requires
        i < lines.len(),
        forall|j: int| 0 <= j < lines.len() ==> settled(#[trigger] lines[j], col),
    ensures
        spec_pass2_from(lines, i, col) == lines,
    decreases i + 1,
{
    if i >= 0 {
        let l = lines[i];
        assert(after_leading_extraction(l) == l);
        assert(spec_reposition_trailing(l, col) == l);
        assert(spec_process_line(lines, i, col) =~= lines);
        lemma_pass2_of_settled(lines, i - 1, col);
    }
}

/// The collapsing pass leaves lines alone when none of them is junk-only.
proof fn lemma_collapse_of_no_junk(done: Seq<Seq<char>>, rest: Seq<Seq<char>>)
    requires
        forall|j: int| 0 <= j < rest.len() ==> !junk_only(#[trigger] rest[j]),
    ensures
        collapse_rec(done, rest) == done + rest,
    decreases rest.len(),
{
    if rest.len() == 0 {
        assert(done + rest =~= done);
    } else {
        assert(!junk_only(rest.first()));
        assert forall|j: int| 0 <= j < rest.drop_first().len() implies !junk_only(
            #[trigger] rest.drop_first()[j],
        ) by {
            assert(rest.drop_first()[j] == rest[j + 1]);
        }
        lemma_collapse_of_no_junk(done.push(rest.first()), rest.drop_first());
        assert(done.push(rest.first()) + rest.drop_first() =~= done + rest);
    }
}

/// Like [`lemma_collapse_rec_content`], but with content known of every
/// gathered line, the first included.
proof fn lemma_collapse_rec_content_all(done: Seq<Seq<char>>, rest: Seq<Seq<char>>)
    requires
        done.len() >= 1,
        forall|j: int| 0 <= j < done.len() ==> line_has_content(#[trigger] done[j]),
        forall|j: int| 0 <= j < rest.len() ==> strip_ws(#[trigger] rest[j]).len() > 0,
    ensures
        collapse_rec(done, rest).len() >= 1,
        forall|j: int|
            0 <= j < collapse_rec(done, rest).len() ==> line_has_content(
                #[trigger] collapse_rec(done, rest)[j],
            ),
    decreases rest.len(),
{
    if rest.len() > 0 {
        let l = rest.first();
        let done2 = collapse_step(done, l);
        assert forall|j: int| 0 <= j < done2.len() implies line_has_content(
            #[trigger] done2[j],
        ) by {
            if junk_only(l) {
                if j == done.len() - 1 {
                    lemma_concat_keeps_content(done.last(), strip_ws(l));
                }
            } else {
                if j == done.len() {
                    lemma_not_junk_only_has_content(l);
                }
            }
        }
        assert forall|j: int| 0 <= j < rest.drop_first().len() implies strip_ws(
            #[trigger] rest.drop_first()[j],
        ).len() > 0 by {
            assert(rest.drop_first()[j] == rest[j + 1]);
        }
        lemma_collapse_rec_content_all(done2, rest.drop_first());
    }
}

/// A line free of line feeds and carriage returns.
pub open spec fn clean(l: Seq<char>) -> bool {
    forall|i: int| 0 <= i < l.len() ==> (#[trigger] l[i]) != '\n' && l[i] != '\r'
}

proof fn lemma_clean_concat(a: Seq<char>, b: Seq<char>)
    requires
        clean(a),
        clean(b),
    ensures
        clean(a + b),
{
    assert forall|i: int| 0 <= i < (a + b).len() implies (#[trigger] (a + b)[i]) != '\n' && (a
        + b)[i] != '\r' by {
        if i < a.len() {
            assert((a + b)[i] == a[i]);
        } else {
            assert((a + b)[i] == b[i - a.len()]);
        }
    }
}

proof fn lemma_clean_junk(sq: Seq<char>)
    requires
        all_junk(sq),
    ensures
        clean(sq),
{
    assert forall|i: int| 0 <= i < sq.len() implies (#[trigger] sq[i]) != '\n' && sq[i]
        != '\r' by {
        assert(is_junk(sq[i]));
    }
}

proof fn lemma_clean_subrange(l: Seq<char>, a: int, b: int)
    requires
        clean(l),
        0 <= a <= b <= l.len(),
    ensures
        clean(l.subrange(a, b)),
{
    assert forall|i: int| 0 <= i < l.subrange(a, b).len() implies (#[trigger] l.subrange(
        a,
        b,
    )[i]) != '\n' && l.subrange(a, b)[i] != '\r' by {
        assert(l.subrange(a, b)[i] == l[a + i]);
    }
}

/// Splitting a buffer without carriage returns yields lines free of line
/// feeds and carriage returns.
proof fn lemma_split_clean(s: Seq<char>)
    requires
        forall|i: int| 0 <= i < s.len() ==> (#[trigger] s[i]) != '\r',
    ensures
        forall|j: int|
            0 <= j < spec_split_lines(s).len() ==> clean(#[trigger] spec_split_lines(s)[j]),
    decreases s.len(),
{
    if s.len() > 0 {
        lemma_first_nl(s);
        let i = first_nl(s) as int;
        if i >= s.len() {
            assert(clean(s));
        } else {
            let seg = s.subrange(0, i);
            assert forall|k: int| 0 <= k < seg.len() implies (#[trigger] seg[k]) != '\n'
                && seg[k] != '\r' by {
                assert(seg[k] == s[k]);
            }
            assert(chomp_cr(seg) == seg);
            let rest = s.subrange(i + 1, s.len() as int);
            assert forall|k: int| 0 <= k < rest.len() implies (#[trigger] rest[k]) != '\r' by {
                assert(rest[k] == s[i + 1 + k]);
            }
            lemma_split_clean(rest);
            let out = spec_split_lines(s);
            assert forall|j: int| 0 <= j < out.len() implies clean(#[trigger] out[j]) by {
                if j == 0 {
                    assert(out[0] == seg);
                } else {
                    assert(out[j] == spec_split_lines(rest)[j - 1]);
                }
            }
        }
    }
}

proof fn lemma_extraction_clean(l: Seq<char>)
    requires
        clean(l),
    ensures
        clean(after_leading_extraction(l)),
{
    if has_leading_junk(l) {
        lemma_ws_prefix_len(l);
        let p = ws_prefix_len(l) as int;
        let tail = l.subrange(p, l.len() as int);
        lemma_junkws_prefix_len(tail);
        let ge = leading_group_end(l);
        lemma_clean_subrange(l, 0, p);
        lemma_clean_subrange(l, ge, l.len() as int);
        lemma_clean_concat(l.subrange(0, p), l.subrange(ge, l.len() as int));
    }
}

proof fn lemma_reposition_clean(l: Seq<char>, col: int)
    requires
        clean(l),
    ensures
        clean(spec_reposition_trailing(l, col)),
{
    let r = spec_reposition_trailing(l, col);
    if r != l {
        lemma_junkws_suffix_len(l);
        let k = junkws_suffix_len(l) as int;
        let sb = l.len() - k;
        let run = l.subrange(sb, l.len() as int);
        assert forall|j: int| 0 <= j < run.len() implies is_junk_or_ws(#[trigger] run[j]) by {
            assert(run[j] == l[sb + j]);
        }
        lemma_strip_ws_junkws(run);
        lemma_clean_junk(strip_ws(run));
        let sp = spaces(pad_len(col, sb));
        assert forall|j: int| 0 <= j < sp.len() implies (#[trigger] sp[j]) != '\n' && sp[j]
            != '\r' by {
            assert(sp[j] == ' ');
        }
        lemma_clean_subrange(l, 0, sb);
        lemma_clean_concat(l.subrange(0, sb), sp);
        lemma_clean_concat(l.subrange(0, sb) + sp, strip_ws(run));
    }
}

proof fn lemma_process_line_clean(lines: Seq<Seq<char>>, i: int, col: int)
    requires
        0 <= i < lines.len(),
        forall|j: int| 0 <= j < lines.len() ==> clean(#[trigger] lines[j]),
    ensures
        forall|j: int|
            0 <= j < lines.len() ==> clean(#[trigger] spec_process_line(lines, i, col)[j]),
{
    let out = spec_process_line(lines, i, col);
    assert forall|j: int| 0 <= j < lines.len() implies clean(#[trigger] out[j]) by {
        if j == i {
            lemma_extraction_clean(lines[i]);
            lemma_reposition_clean(after_leading_extraction(lines[i]), col);
        } else if j == i - 1 && has_leading_junk(lines[i]) {
            let l = lines[i];
            lemma_ws_prefix_len(l);
            let p = ws_prefix_len(l) as int;
            let tail = l.subrange(p, l.len() as int);
            lemma_junkws_prefix_len(tail);
            let group = l.subrange(p, leading_group_end(l));
            assert forall|m: int| 0 <= m < group.len() implies is_junk_or_ws(
                #[trigger] group[m],
            ) by {
                assert(group[m] == tail[m]);
            }
            lemma_strip_ws_junkws(group);
            lemma_clean_junk(staged_junk(l));
            lemma_clean_concat(lines[j], staged_junk(l));
        } else {
            assert(out[j] == lines[j]);
        }
    }
}

proof fn lemma_pass2_from_clean(lines: Seq<Seq<char>>, i: int, col: int)
    requires
        i < lines.len(),
        forall|j: int| 0 <= j < lines.len() ==> clean(#[trigger] lines[j]),
    ensures
        forall|j: int|
            0 <= j < lines.len() ==> clean(#[trigger] spec_pass2_from(lines, i, col)[j]),
        spec_pass2_from(lines, i, col).len() == lines.len(),
    decreases i + 1,
{
    if i >= 0 {
        lemma_process_line_clean(lines, i, col);
        lemma_pass2_from_clean(spec_process_line(lines, i, col), i - 1, col);
    }
}

proof fn lemma_collapse_rec_clean(done: Seq<Seq<char>>, rest: Seq<Seq<char>>)
    requires
        forall|j: int| 0 <= j < done.len() ==> clean(#[trigger] done[j]),
        forall|j: int| 0 <= j < rest.len() ==> clean(#[trigger] rest[j]),
    ensures
        forall|j: int|
            0 <= j < collapse_rec(done, rest).len() ==> clean(#[trigger] collapse_rec(
                done,
                rest,
            )[j]),
    decreases rest.len(),
{
    if rest.len() > 0 {
        let l = rest.first();
        let done2 = collapse_step(done, l);
        assert(clean(rest[0]));
        assert forall|j: int| 0 <= j < done2.len() implies clean(#[trigger] done2[j]) by {
            if junk_only(l) && done.len() > 0 {
                if j == done.len() - 1 {
                    lemma_clean_junk(strip_ws(l));
                    lemma_clean_concat(done.last(), strip_ws(l));
                    assert(done2[j] == done.last() + strip_ws(l));
                } else {
                    assert(done2[j] == done[j]);
                }
            } else {
                if j == done.len() {
                    assert(done2[j] == l);
                } else {
                    assert(done2[j] == done[j]);
                }
            }
        }
        assert forall|j: int| 0 <= j < rest.drop_first().len() implies clean(
            #[trigger] rest.drop_first()[j],
        ) by {
            assert(rest.drop_first()[j] == rest[j + 1]);
        }
        lemma_collapse_rec_clean(done2, rest.drop_first());
        assert(collapse_rec(done, rest) == collapse_rec(done2, rest.drop_first()));
    }
}

/// Splitting the join of non-empty, line-feed-free and carriage-return-free
/// lines gives those lines back.
proof fn lemma_split_join_roundtrip(ls: Seq<Seq<char>>)
    requires
        forall|j: int| 0 <= j < ls.len() ==> clean(#[trigger] ls[j]),
        forall|j: int| 0 <= j < ls.len() ==> (#[trigger] ls[j]).len() > 0,
    ensures
        spec_split_lines(spec_join_lines(ls)) == ls,
    decreases ls.len(),
{
    if ls.len() == 0 {
    } else if ls.len() == 1 {
        let l = ls.first();
        lemma_first_nl_is(l, l.len() as int);
        assert(spec_split_lines(l) == seq![l]);
        assert(seq![l] =~= ls);
    } else {
        let l = ls.first();
        let rest_join = spec_join_lines(ls.drop_first());
        let j = spec_join_lines(ls);
        assert(j == l + seq!['\n'] + rest_join);
        assert forall|k: int| 0 <= k < l.len() implies #[trigger] j[k] != '\n' by {
            assert(j[k] == (l + seq!['\n'])[k]);
            assert(j[k] == l[k]);
        }
        assert(j[l.len() as int] == (l + seq!['\n'])[l.len() as int]);
        assert(j[l.len() as int] == '\n');
        lemma_first_nl_is(j, l.len() as int);
        let seg = j.subrange(0, l.len() as int);
        assert(seg =~= l);
        assert(l.len() > 0 ==> l.last() != '\r');
        assert(chomp_cr(seg) == seg);
        assert(j.subrange(l.len() as int + 1, j.len() as int) =~= rest_join);
        assert forall|m: int| 0 <= m < ls.drop_first().len() implies clean(
            #[trigger] ls.drop_first()[m],
        ) && (#[trigger] ls.drop_first()[m]).len() > 0 by {
            assert(ls.drop_first()[m] == ls[m + 1]);
        }
        lemma_split_join_roundtrip(ls.drop_first());
        assert(spec_split_lines(j) == seq![l] + ls.drop_first());
        assert(seq![l] + ls.drop_first() =~= ls);
    }
}

/// Junk-only line elimination, stated of the output buffer itself: under
/// the same conditions as idempotence, no line of the formatted buffer
/// apart from the first is junk and whitespace with a junk character
/// present.
pub proof fn lemma_output_has_no_junk_only_line(s: Seq<char>, col: int)
    requires
        forall|i: int| 0 <= i < s.len() ==> (#[trigger] s[i]) != '\r',
        forall|i: int|
            0 <= i < spec_split_lines(s).len() ==> strip_ws(
                #[trigger] spec_split_lines(s)[i],
            ).len() > 0,
        spec_split_lines(s).len() > 0 ==> line_has_content(spec_split_lines(s)[0]),
    ensures
        forall|i: int|
            1 <= i < spec_split_lines(spec_format(s, col)).len() ==> !junk_only(
                #[trigger] spec_split_lines(spec_format(s, col))[i],
            ),
{
    let lines = spec_split_lines(s);
    let collapsed = spec_collapse(lines);
    let out = spec_pass2(collapsed, col);
    let buf = spec_join_lines(out);
    if lines.len() == 0 {
        assert(spec_format(s, col) == Seq::<char>::empty());
        assert(spec_split_lines(spec_format(s, col)).len() == 0);
    } else {
        assert forall|j: int| 0 <= j < lines.drop_first().len() implies strip_ws(
            #[trigger] lines.drop_first()[j],
        ).len() > 0 by {
            assert(lines.drop_first()[j] == lines[j + 1]);
        }
        lemma_collapse_rec_content_all(seq![lines.first()], lines.drop_first());
        lemma_split_clean(s);
        lemma_collapse_rec_clean(seq![lines.first()], lines.drop_first());
        lemma_pass2_from_settled(collapsed, collapsed.len() - 1, col);
        lemma_pass2_from_clean(collapsed, collapsed.len() - 1, col);
        assert forall|j: int| 0 <= j < out.len() implies (#[trigger] out[j]).len() > 0 by {
            assert(line_has_content(out[j]));
            let q = choose|q: int| 0 <= q < out[j].len() && is_content(#[trigger] out[j][q]);
        }
        lemma_split_join_roundtrip(out);
        assert(spec_split_lines(spec_format(s, col)) == out);
        assert forall|i: int| 1 <= i < out.len() implies !junk_only(#[trigger] out[i]) by {
            assert(line_has_content(out[i]));
            let q = choose|q: int| 0 <= q < out[i].len() && is_content(#[trigger] out[i][q]);
            lemma_content_not_junk_only(out[i], q);
        }
    }
}

/// Idempotence: for a buffer without carriage returns, in which every line
/// has at least one non-whitespace character and the first line has at
/// least one character that is neither junk nor whitespace, formatting a
/// second time changes nothing.
pub proof fn lemma_format_idempotent(s: Seq<char>, col: int)
    requires
        forall|i: int| 0 <= i < s.len() ==> (#[trigger] s[i]) != '\r',
        forall|i: int|
            0 <= i < spec_split_lines(s).len() ==> strip_ws(
                #[trigger] spec_split_lines(s)[i],
            ).len() > 0,
        spec_split_lines(s).len() > 0 ==> line_has_content(spec_split_lines(s)[0]),
    ensures
        spec_format(spec_format(s, col), col) == spec_format(s, col),
{
    let lines = spec_split_lines(s);
    let collapsed = spec_collapse(lines);
    let out = spec_pass2(collapsed, col);
    let buf = spec_join_lines(out);
    if lines.len() == 0 {
        assert(spec_format(s, col) == spec_join_lines(spec_pass2_from(lines, -1, col)));
        assert(spec_format(s, col) == Seq::<char>::empty());
        assert(spec_split_lines(Seq::<char>::empty()).len() == 0);
    } else {
        assert forall|j: int| 0 <= j < lines.drop_first().len() implies strip_ws(
            #[trigger] lines.drop_first()[j],
        ).len() > 0 by {
            assert(lines.drop_first()[j] == lines[j + 1]);
        }
        lemma_collapse_rec_content_all(seq![lines.first()], lines.drop_first());
        lemma_split_clean(s);
        lemma_collapse_rec_clean(seq![lines.first()], lines.drop_first());
        lemma_pass2_from_settled(collapsed, collapsed.len() - 1, col);
        lemma_pass2_from_clean(collapsed, collapsed.len() - 1, col);
        assert forall|j: int| 0 <= j < out.len() implies (#[trigger] out[j]).len() > 0 by {
            assert(line_has_content(out[j]));
            let q = choose|q: int| 0 <= q < out[j].len() && is_content(#[trigger] out[j][q]);
        }
        lemma_split_join_roundtrip(out);
        assert(spec_split_lines(buf) == out);
        assert forall|j: int| 0 <= j < out.drop_first().len() implies !junk_only(
            #[trigger] out.drop_first()[j],
        ) by {
            assert(out.drop_first()[j] == out[j + 1]);
            assert(line_has_content(out[j + 1]));
            let q = choose|q: int|
                0 <= q < out[j + 1].len() && is_content(#[trigger] out[j + 1][q]);
            lemma_content_not_junk_only(out[j + 1], q);
        }
        lemma_collapse_of_no_junk(seq![out.first()], out.drop_first());
        assert(seq![out.first()] + out.drop_first() =~= out);
        assert(spec_collapse(out) == out);
        lemma_pass2_of_settled(out, out.len() - 1, col);
        assert(spec_pass2(out, col) == out);
        assert(spec_format(buf, col) == buf);
    }
}

} // verus!
