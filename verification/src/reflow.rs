use crate::context::{budget_of, character_budget};
use crate::marker::{
    anchor_in_stripped, anchor_in_wrapped, anchored, has_no_marker, in_soft_break,
    lemma_stripped_basics, lemma_stripped_concat, lemma_stripped_of_plain, strip_soft_breaks,
    stripped, stripped_offset, SOFT_BREAK,
};
use crate::normalize::{
    anchor_in_normalized, has_no_return, lemma_normalized_has_no_return, normalize, normalized,
    normalized_offset, CARRIAGE_RETURN, LINE_FEED,
};
use crate::paragraph::{hard_break, join, joined, lemma_paragraphs, paragraphs, split_paragraphs};
use crate::wrap::{
    effective_budget, lemma_wrapped_from_chars, lemma_wrapped_lines, line_views, wrap,
    wrapped_lines,
};
use vstd::prelude::*;

verus! {

/// The text of the editing surface and the place of its caret, both counted
/// in characters.
#[derive(Clone, Debug, PartialEq, Eq)]
pub struct Document {
    /// The characters, soft breaks included.
    pub text: Vec<char>,
    /// The number of characters in front of the caret.
    pub cursor: usize,
}

/// A document as contracts see it.
pub struct DocumentView {
    pub text: Seq<char>,
    pub cursor: int,
}

impl View for Document {
    type V = DocumentView;

    open spec fn view(&self) -> DocumentView {
        DocumentView { text: self.text@, cursor: self.cursor as int }
    }
}

/// What stands between two display lines of one paragraph: the marker, then
/// a line feed.
pub open spec fn soft_break() -> Seq<char> {
    seq![SOFT_BREAK, LINE_FEED]
}

/// A paragraph as it is shown: its display lines with a soft break between
/// each two.
pub open spec fn wrapped_paragraph(p: Seq<char>, budget: int) -> Seq<char> {
    joined(wrapped_lines(p, budget), soft_break())
}

/// A text free of soft breaks as it is shown under a budget: each paragraph
/// wrapped by itself, and a line feed between each two paragraphs.
pub open spec fn laid_out(l: Seq<char>, budget: int) -> Seq<char> {
    joined(paragraphs(l).map_values(|p: Seq<char>| wrapped_paragraph(p, budget)), hard_break())
}

/// What the author wrote: the text in the internal line convention and
/// without the soft breaks of an earlier wrapping.
pub open spec fn logical(s: Seq<char>) -> Seq<char> {
    stripped(normalized(s))
}

/// How many characters of `logical(s)` stem from the first `offset`
/// characters of `s`.
pub open spec fn logical_offset(s: Seq<char>, offset: int) -> int {
    stripped_offset(normalized(s), normalized_offset(s, offset))
}

/// The text wrapped anew under a budget.
pub open spec fn reflowed_text(s: Seq<char>, budget: int) -> Seq<char> {
    laid_out(logical(s), budget)
}

/// The place of the caret in the text wrapped anew: in front of it stands
/// what stood in front of it before.
pub open spec fn reflowed_cursor(s: Seq<char>, cursor: int, budget: int) -> int {
    anchored(reflowed_text(s, budget), logical_offset(s, cursor))
}

/// The document wrapped anew for a width and a font size.
pub open spec fn reflowed(d: DocumentView, display_width_px: int, font_size_px: int)
    -> DocumentView {
    let budget = budget_of(display_width_px, font_size_px);
    DocumentView {
        text: reflowed_text(d.text, budget),
        cursor: reflowed_cursor(d.text, d.cursor, budget),
    }
}

/// Stripping keeps a text free of carriage returns free of them.
pub proof fn lemma_stripped_has_no_return(s: Seq<char>)
    requires
        has_no_return(s),
    ensures
        has_no_return(stripped(s)),
    decreases s.len(),
{
    if s.len() > 0 {
        lemma_stripped_has_no_return(s.drop_last());
    }
}

/// What the author wrote holds no carriage return and no marker.
pub proof fn lemma_logical_is_plain(s: Seq<char>)
    ensures
        has_no_return(logical(s)),
        has_no_marker(logical(s)),
        logical(s).len() <= s.len(),
{
    lemma_normalized_has_no_return(s);
    lemma_stripped_has_no_return(normalized(s));
    lemma_stripped_basics(normalized(s));
}

/// The display lines of a plain paragraph, joined by soft breaks, strip back
/// to the paragraph; and what they give ends with no marker and holds no
/// carriage return.
pub proof fn lemma_wrapped_paragraph(p: Seq<char>, budget: int)
    requires
        has_no_marker(p),
    ensures
        stripped(wrapped_paragraph(p, budget)) == p,
        wrapped_paragraph(p, budget).len() == 0 || wrapped_paragraph(p, budget).last()
            != SOFT_BREAK,
        has_no_return(p) ==> has_no_return(wrapped_paragraph(p, budget)),
{
    let lines = wrapped_lines(p, budget);
    lemma_wrapped_lines(p, budget);
    lemma_wrapped_from_chars(p, 0, effective_budget(budget));
    assert forall|i: int| 0 <= i < lines.len() implies has_no_marker(#[trigger] lines[i]) && (
    has_no_return(p) ==> has_no_return(lines[i])) by {
        assert forall|j: int| 0 <= j < lines[i].len() implies lines[i][j] != SOFT_BREAK && (
        has_no_return(p) ==> lines[i][j] != CARRIAGE_RETURN) by {
            assert(p.contains(lines[i][j]));
        }
    }
    lemma_soft_joined(lines);
    if has_no_return(p) {
        lemma_joined_has_no_return(lines, soft_break());
    }
}

/// Plain lines joined by soft breaks strip back to the lines put end to end.
pub proof fn lemma_soft_joined(lines: Seq<Seq<char>>)
    requires
        forall|i: int| 0 <= i < lines.len() ==> has_no_marker(#[trigger] lines[i]),
    ensures
        stripped(joined(lines, soft_break())) == lines.flatten(),
        joined(lines, soft_break()).len() == 0 || joined(lines, soft_break()).last()
            != SOFT_BREAK,
    decreases lines.len(),
{
    broadcast use Seq::lemma_flatten_push;

    if lines.len() == 0 {
    } else if lines.len() == 1 {
        lemma_stripped_of_plain(lines[0]);
        lines.lemma_flatten_one_element();
    } else {
        let front = lines.drop_last();
        let last = lines.last();
        lemma_soft_joined(front);
        let a = joined(front, soft_break());
        let x = a + soft_break();
        let y = a.push(SOFT_BREAK);
        assert(x.drop_last() == y);
        assert(y.drop_last() == a);
        assert(x[x.len() - 1] == LINE_FEED);
        assert(x[x.len() - 2] == SOFT_BREAK);
        assert(in_soft_break(x, x.len() - 1));
        assert(stripped(x) == stripped(y));
        assert(y[y.len() - 1] == SOFT_BREAK);
        assert(in_soft_break(y, y.len() - 1));
        assert(stripped(y) == stripped(a));
        lemma_stripped_concat(x, last);
        lemma_stripped_of_plain(last);
        assert(lines == front.push(last));
        assert(joined(lines, soft_break()) == x + last);
    }
}

/// Parts and a separator free of carriage returns give a join free of them.
pub proof fn lemma_joined_has_no_return(parts: Seq<Seq<char>>, sep: Seq<char>)
    requires
        forall|i: int| 0 <= i < parts.len() ==> has_no_return(#[trigger] parts[i]),
        has_no_return(sep),
    ensures
        has_no_return(joined(parts, sep)),
    decreases parts.len(),
{
    if parts.len() >= 2 {
        lemma_joined_has_no_return(parts.drop_last(), sep);
    }
}

/// Stripping goes through a join by line feeds, part by part, where no part
/// ends with a marker.
pub proof fn lemma_hard_joined(parts: Seq<Seq<char>>)
    requires
        forall|i: int|
            0 <= i < parts.len() ==> (#[trigger] parts[i]).len() == 0 || parts[i].last()
                != SOFT_BREAK,
    ensures
        stripped(joined(parts, hard_break())) == joined(
            parts.map_values(|x: Seq<char>| stripped(x)),
            hard_break(),
        ),
        joined(parts, hard_break()).len() == 0 || joined(parts, hard_break()).last()
            != SOFT_BREAK,
    decreases parts.len(),
{
    let inner = parts.map_values(|x: Seq<char>| stripped(x));
    if parts.len() == 0 {
    } else if parts.len() == 1 {
    } else {
        let front = parts.drop_last();
        let last = parts.last();
        lemma_hard_joined(front);
        let a = joined(front, hard_break());
        lemma_stripped_concat(a, hard_break());
        assert(stripped(hard_break()) == hard_break()) by {
            assert(hard_break().drop_last() == Seq::<char>::empty());
            assert(stripped(hard_break().drop_last()) == Seq::<char>::empty());
            assert(!in_soft_break(hard_break(), 0));
            assert(Seq::<char>::empty().push(LINE_FEED) == hard_break());
        }
        lemma_stripped_concat(a + hard_break(), last);
        assert(inner.drop_last() == front.map_values(|x: Seq<char>| stripped(x)));
        assert(inner.last() == stripped(last));
    }
}

/// A plain text that is laid out strips back to itself, and what is laid
/// out holds no carriage return where the text held none.
pub proof fn lemma_laid_out(l: Seq<char>, budget: int)
    requires
        has_no_marker(l),
    ensures
        stripped(laid_out(l, budget)) == l,
        has_no_return(l) ==> has_no_return(laid_out(l, budget)),
{
    let parts = paragraphs(l);
    let shown = parts.map_values(|p: Seq<char>| wrapped_paragraph(p, budget));
    lemma_paragraphs(l);
    assert forall|i: int| 0 <= i < parts.len() implies has_no_marker(#[trigger] parts[i]) && (
    has_no_return(l) ==> has_no_return(parts[i])) by {
        assert forall|j: int| 0 <= j < parts[i].len() implies parts[i][j] != SOFT_BREAK && (
        has_no_return(l) ==> parts[i][j] != CARRIAGE_RETURN) by {
            assert(l.contains(parts[i][j]));
        }
    }
    assert forall|i: int| 0 <= i < shown.len() implies ((#[trigger] shown[i]).len() == 0
        || shown[i].last() != SOFT_BREAK) && stripped(shown[i]) == parts[i] && (has_no_return(l)
        ==> has_no_return(shown[i])) by {
        lemma_wrapped_paragraph(parts[i], budget);
    }
    lemma_hard_joined(shown);
    assert(shown.map_values(|x: Seq<char>| stripped(x)) == parts);
    if has_no_return(l) {
        lemma_joined_has_no_return(shown, hard_break());
    }
}

/// Wraps one paragraph and joins its display lines by soft breaks.
pub fn wrap_paragraph(paragraph: &Vec<char>, budget: usize) -> (out: Vec<char>)
    ensures
        out@ == wrapped_paragraph(paragraph@, budget as int),
{
    let lines = wrap(paragraph, budget);
    let sep: Vec<char> = vec![SOFT_BREAK, LINE_FEED];
    proof {
        assert(sep@ == soft_break());
    }
    join(&lines, &sep)
}

/// Lays out a text that holds no soft breaks: wraps each of its paragraphs
/// under the budget and joins them by line feeds.
pub fn layout(text: &Vec<char>, budget: usize) -> (out: Vec<char>)
    ensures
        out@ == laid_out(text@, budget as int),
{
    let parts = split_paragraphs(text);
    let ghost shown = paragraphs(text@).map_values(
        |p: Seq<char>| wrapped_paragraph(p, budget as int),
    );
    let mut wrapped: Vec<Vec<char>> = Vec::new();
    let mut i: usize = 0;
    while i < parts.len()
        invariant
            0 <= i <= parts.len(),
            line_views(parts@) == paragraphs(text@),
            shown == paragraphs(text@).map_values(
                |p: Seq<char>| wrapped_paragraph(p, budget as int),
            ),
            line_views(wrapped@) == shown.take(i as int),
        decreases parts.len() - i,
    {
        let one = wrap_paragraph(&parts[i], budget);
        proof {
            assert(line_views(parts@)[i as int] == parts@[i as int]@);
            assert(shown.take(i + 1) == shown.take(i as int).push(one@));
            assert(line_views(wrapped@.push(one)) == line_views(wrapped@).push(one@));
        }
        wrapped.push(one);
        i += 1;
    }
    let sep: Vec<char> = vec![LINE_FEED];
    proof {
        assert(sep@ == hard_break());
        assert(shown.take(parts.len() as int) == shown);
    }
    join(&wrapped, &sep)
}

/// Wraps a text anew under a budget: brings its line endings into the
/// internal convention, takes out the soft breaks of an earlier wrapping, and
/// lays the result out.
pub fn reflow_text(text: &Vec<char>, budget: usize) -> (out: Vec<char>)
    ensures
        out@ == reflowed_text(text@, budget as int),
{
    let plain = strip_soft_breaks(&normalize(text));
    layout(&plain, budget)
}

/// Wraps a document anew for a width and a font size and moves its caret
/// along, so that the caret stays behind the character it stood behind. The
/// document itself is left as it is; the result is to be put in its place.
pub fn reflow(document: &Document, display_width_px: i32, font_size_px: i32) -> (out: Document)
    ensures
        out@ == reflowed(document@, display_width_px as int, font_size_px as int),
        out.cursor <= out.text.len(),
{
    let budget = character_budget(display_width_px, font_size_px);
    let clean = normalize(&document.text);
    let in_clean = anchor_in_normalized(&document.text, document.cursor);
    let plain = strip_soft_breaks(&clean);
    let in_plain = anchor_in_stripped(&clean, in_clean);
    let text = layout(&plain, budget);
    let cursor = anchor_in_wrapped(&text, in_plain);
    Document { text, cursor }
}

} // verus!
