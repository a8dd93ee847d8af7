use crate::marker::{has_no_marker, SOFT_BREAK};
use crate::normalize::LINE_FEED;
use crate::paragraph::{hard_break, joined, lemma_paragraphs, paragraphs, split_paragraphs};
use crate::reflow::{
    lemma_logical_is_plain, logical, reflowed_text, soft_break, wrapped_paragraph,
};
use crate::wrap::{
    copy_range, effective_budget, lemma_wrapped_from_chars, lemma_wrapped_lines, line_views,
    line_within_budget, wrapped_lines,
};
use vstd::prelude::*;

verus! {

/// A line as it is shown: without the marker that may stand at its end.
pub open spec fn without_marker(line: Seq<char>) -> Seq<char> {
    if line.len() > 0 && line.last() == SOFT_BREAK {
        line.drop_last()
    } else {
        line
    }
}

/// The display lines of a wrapped text: the stretches between its line
/// feeds, each without the marker at its end.
pub open spec fn display_lines(w: Seq<char>) -> Seq<Seq<char>> {
    paragraphs(w).map_values(|line: Seq<char>| without_marker(line))
}

/// Whether no line feed occurs in the text.
pub open spec fn has_no_line_feed(s: Seq<char>) -> bool {
    forall|i: int| 0 <= i < s.len() ==> s[i] != LINE_FEED
}

/// Whether every line is within the budget or a single word too long for it.
pub open spec fn all_within_budget(lines: Seq<Seq<char>>, budget: int) -> bool {
    forall|k: int| 0 <= k < lines.len() ==> line_within_budget(#[trigger] lines[k], budget)
}

/// The paragraphs of two texts joined by a line feed are those of the first
/// and then those of the second.
pub proof fn lemma_paragraphs_concat(a: Seq<char>, c: Seq<char>)
    ensures
        paragraphs(a + hard_break() + c) == paragraphs(a) + paragraphs(c),
    decreases c.len(),
{
    let whole = a + hard_break() + c;
    if c.len() == 0 {
        assert(whole.drop_last() == a);
        assert(paragraphs(c) == seq![Seq::<char>::empty()]);
        assert(paragraphs(a).push(Seq::empty()) == paragraphs(a) + paragraphs(c));
    } else {
        let front = c.drop_last();
        lemma_paragraphs_concat(a, front);
        lemma_paragraphs(front);
        lemma_paragraphs(a);
        assert(whole.drop_last() == a + hard_break() + front);
        assert(whole.last() == c.last());
        let head = paragraphs(a) + paragraphs(front);
        if c.last() == LINE_FEED {
            assert(head.push(Seq::empty()) == paragraphs(a) + paragraphs(front).push(
                Seq::empty(),
            ));
        } else {
            assert(head.last() == paragraphs(front).last());
            assert(head.drop_last() == paragraphs(a) + paragraphs(front).drop_last());
            assert(head.drop_last().push(head.last().push(c.last())) == paragraphs(a)
                + paragraphs(front).drop_last().push(paragraphs(front).last().push(c.last())));
        }
    }
}

/// A text without line feeds is one paragraph.
pub proof fn lemma_paragraphs_of_line(x: Seq<char>)
    requires
        has_no_line_feed(x),
    ensures
        paragraphs(x) == seq![x],
    decreases x.len(),
{
    if x.len() > 0 {
        lemma_paragraphs_of_line(x.drop_last());
        assert(x.drop_last().push(x.last()) == x);
        assert(seq![x.drop_last()].drop_last().push(x) == seq![x]);
    } else {
        assert(x == Seq::<char>::empty());
    }
}

/// Lines joined by soft breaks are shown as those lines.
pub proof fn lemma_display_lines_of_soft_joined(lines: Seq<Seq<char>>)
    requires
        lines.len() >= 1,
        forall|i: int|
            0 <= i < lines.len() ==> has_no_marker(#[trigger] lines[i]) && has_no_line_feed(
                lines[i],
            ),
    ensures
        display_lines(joined(lines, soft_break())) == lines,
        paragraphs(joined(lines, soft_break())).len() == lines.len(),
        paragraphs(joined(lines, soft_break())).last() == lines.last(),
    decreases lines.len(),
{
    let strip = |line: Seq<char>| without_marker(line);
    if lines.len() == 1 {
        lemma_paragraphs_of_line(lines[0]);
        assert(seq![lines[0]].map_values(strip) == lines);
    } else {
        let front = lines.drop_last();
        let last = lines.last();
        lemma_display_lines_of_soft_joined(front);
        let a = joined(front, soft_break());
        let marked = a.push(SOFT_BREAK);
        assert(joined(lines, soft_break()) == marked + hard_break() + last);
        lemma_paragraphs_concat(marked, last);
        lemma_paragraphs_of_line(last);
        assert(marked.drop_last() == a);
        let pa = paragraphs(a);
        let pm = paragraphs(marked);
        assert(pm == pa.drop_last().push(pa.last().push(SOFT_BREAK)));
        assert(without_marker(pa.last().push(SOFT_BREAK)) == pa.last()) by {
            assert(pa.last().push(SOFT_BREAK).drop_last() == pa.last());
        }
        assert(without_marker(pa.last()) == pa.last());
        assert(pm.map_values(strip) == pa.map_values(strip));
        assert((pm + seq![last]).map_values(strip) == pm.map_values(strip).push(last));
        assert(front.push(last) == lines);
    }
}

/// What is laid out is shown in lines that are each within the budget or a
/// single word too long for it.
pub proof fn lemma_display_lines_of_joined_paragraphs(parts: Seq<Seq<char>>, budget: int)
    requires
        forall|i: int|
            0 <= i < parts.len() ==> has_no_marker(#[trigger] parts[i]) && has_no_line_feed(
                parts[i],
            ),
    ensures
        all_within_budget(
            display_lines(
                joined(parts.map_values(|p: Seq<char>| wrapped_paragraph(p, budget)), hard_break()),
            ),
            effective_budget(budget),
        ),
    decreases parts.len(),
{
    let strip = |line: Seq<char>| without_marker(line);
    let show = |p: Seq<char>| wrapped_paragraph(p, budget);
    let shown = parts.map_values(show);
    let whole = joined(shown, hard_break());
    if parts.len() == 0 {
        assert(display_lines(whole)[0] == Seq::<char>::empty());
    } else {
        let last = parts.last();
        lemma_lines_of_plain_paragraph(last, budget);
        lemma_display_lines_of_soft_joined(wrapped_lines(last, budget));
        lemma_wrapped_lines(last, budget);
        if parts.len() > 1 {
            let front = parts.drop_last();
            lemma_display_lines_of_joined_paragraphs(front, budget);
            assert(shown.drop_last() == front.map_values(show));
            let a = joined(front.map_values(show), hard_break());
            assert(whole == a + hard_break() + show(last));
            lemma_paragraphs_concat(a, show(last));
            assert(display_lines(whole) == display_lines(a) + display_lines(show(last)));
        }
    }
}

/// The display lines of a paragraph without markers and line feeds hold
/// neither.
pub proof fn lemma_lines_of_plain_paragraph(p: Seq<char>, budget: int)
    requires
        has_no_marker(p),
        has_no_line_feed(p),
    ensures
        forall|i: int|
            0 <= i < wrapped_lines(p, budget).len() ==> has_no_marker(
                #[trigger] wrapped_lines(p, budget)[i],
            ) && has_no_line_feed(wrapped_lines(p, budget)[i]),
{
    let lines = wrapped_lines(p, budget);
    lemma_wrapped_from_chars(p, 0, effective_budget(budget));
    assert forall|i: int| 0 <= i < lines.len() implies has_no_marker(#[trigger] lines[i])
        && has_no_line_feed(lines[i]) by {
        assert forall|j: int| 0 <= j < lines[i].len() implies lines[i][j] != SOFT_BREAK
            && lines[i][j] != LINE_FEED by {
            assert(p.contains(lines[i][j]));
        }
    }
}

/// Every display line of a text that was wrapped anew is within the budget,
/// or is a single word that is longer than the budget.
pub proof fn lemma_reflowed_within_budget(s: Seq<char>, budget: int)
    ensures
        all_within_budget(display_lines(reflowed_text(s, budget)), effective_budget(budget)),
{
    let l = logical(s);
    let parts = paragraphs(l);
    lemma_logical_is_plain(s);
    lemma_paragraphs(l);
    assert forall|i: int| 0 <= i < parts.len() implies has_no_marker(#[trigger] parts[i])
        && has_no_line_feed(parts[i]) by {
        assert forall|j: int| 0 <= j < parts[i].len() implies parts[i][j] != SOFT_BREAK by {
            assert(l.contains(parts[i][j]));
        }
    }
    lemma_display_lines_of_joined_paragraphs(parts, budget);
}

/// Splits a wrapped text into its display lines.
pub fn split_display_lines(text: &Vec<char>) -> (lines: Vec<Vec<char>>)
    ensures
        line_views(lines@) == display_lines(text@),
        lines.len() >= 1,
{
    let parts = split_paragraphs(text);
    let ghost wanted = display_lines(text@);
    let mut lines: Vec<Vec<char>> = Vec::new();
    let mut i: usize = 0;
    while i < parts.len()
        invariant
            0 <= i <= parts.len(),
            parts.len() >= 1,
            line_views(parts@) == paragraphs(text@),
            wanted == display_lines(text@),
            line_views(lines@) == wanted.take(i as int),
        decreases parts.len() - i,
    {
        let part = &parts[i];
        let n = part.len();
        let shown = if n > 0 && part[n - 1] == SOFT_BREAK {
            copy_range(part, 0, n - 1)
        } else {
            copy_range(part, 0, n)
        };
        proof {
            assert(line_views(parts@)[i as int] == part@);
            assert(part@.subrange(0, n - 1) == part@.drop_last());
            assert(part@.subrange(0, n as int) == part@);
            assert(wanted.take(i + 1) == wanted.take(i as int).push(shown@));
            assert(line_views(lines@.push(shown)) == line_views(lines@).push(shown@));
        }
        lines.push(shown);
        i += 1;
    }
    proof {
        assert(wanted.take(parts.len() as int) == wanted);
        assert(line_views(lines@).len() == lines@.len());
    }
    lines
}

} // verus!
