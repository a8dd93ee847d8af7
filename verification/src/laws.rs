use crate::context::budget_of;
use crate::marker::{
    anchored, lemma_anchor_exists, lemma_anchor_keeps_offset, lemma_stripped_offset_monotone,
    stripped, stripped_offset,
};
use crate::normalize::{has_no_return, lemma_normalized_of_clean, normalized, normalized_offset};
use crate::paragraph::{lemma_paragraphs, paragraphs};
use crate::reflow::{
    lemma_laid_out, lemma_logical_is_plain, logical, logical_offset, reflowed, reflowed_cursor,
    reflowed_text, wrapped_paragraph, DocumentView,
};
use crate::wrap::{effective_budget, lemma_short_paragraph_unchanged};
use vstd::prelude::*;

verus! {

/// The paragraphs that the author wrote, whatever wrapping the text carries.
pub open spec fn authored_paragraphs(s: Seq<char>) -> Seq<Seq<char>> {
    paragraphs(logical(s))
}

/// The number of line ends that the author wrote.
pub open spec fn hard_break_count(s: Seq<char>) -> int {
    authored_paragraphs(s).len() - 1
}

/// The document after it was wrapped anew for each context in turn, a
/// context being a width and a font size.
pub open spec fn reflowed_through(d: DocumentView, contexts: Seq<(int, int)>) -> DocumentView
    decreases contexts.len(),
{
    if contexts.len() == 0 {
        d
    } else {
        reflowed(reflowed_through(d, contexts.drop_last()), contexts.last().0, contexts.last().1)
    }
}

/// Wrapping a text anew changes nothing of what the author wrote: without
/// its soft breaks the result is the text it was made from, character for
/// character. The result holds no carriage return.
pub proof fn lemma_reflow_preserves_content(s: Seq<char>, budget: int)
    ensures
        logical(reflowed_text(s, budget)) == logical(s),
        stripped(reflowed_text(s, budget)) == logical(s),
        has_no_return(reflowed_text(s, budget)),
        normalized(reflowed_text(s, budget)) == reflowed_text(s, budget),
{
    lemma_logical_is_plain(s);
    lemma_laid_out(logical(s), budget);
    lemma_normalized_of_clean(reflowed_text(s, budget));
}

/// Wrapping a wrapped text once more under the same budget gives the same
/// text.
pub proof fn lemma_reflow_text_idempotent(s: Seq<char>, budget: int)
    ensures
        reflowed_text(reflowed_text(s, budget), budget) == reflowed_text(s, budget),
{
    lemma_reflow_preserves_content(s, budget);
}

/// Wrapping can be undone: under a budget that every paragraph is within,
/// wrapping anew gives what the author wrote, with no soft break left.
pub proof fn lemma_wide_budget_unwraps(s: Seq<char>, budget: int)
    requires
        forall|i: int|
            0 <= i < authored_paragraphs(s).len() ==> (#[trigger] authored_paragraphs(s)[i]).len()
                <= effective_budget(budget),
    ensures
        reflowed_text(s, budget) == logical(s),
{
    let parts = authored_paragraphs(s);
    let shown = parts.map_values(|p: Seq<char>| wrapped_paragraph(p, budget));
    assert forall|i: int| 0 <= i < parts.len() implies shown[i] == parts[i] by {
        lemma_short_paragraph_unchanged(parts[i], budget);
    }
    assert(shown == parts);
    lemma_paragraphs(logical(s));
}

/// Where there is no text there is nothing to wrap.
pub proof fn lemma_reflow_of_nothing(budget: int)
    ensures
        reflowed_text(Seq::empty(), budget) == Seq::<char>::empty(),
{
    let nothing = Seq::<char>::empty();
    assert(logical(nothing) == nothing);
    assert(authored_paragraphs(nothing) == seq![nothing]);
    lemma_wide_budget_unwraps(nothing, budget);
}

/// In a text without carriage returns the logical offset is the stripped
/// offset.
pub proof fn lemma_logical_offset_of_clean(s: Seq<char>, offset: int)
    requires
        has_no_return(s),
    ensures
        logical_offset(s, offset) == stripped_offset(s, offset),
{
    lemma_normalized_of_clean(s);
    if 0 < offset < s.len() {
        lemma_normalized_of_clean(s.take(offset));
    }
}

/// The logical offset of a caret lies within what the author wrote.
pub proof fn lemma_logical_offset_bounds(s: Seq<char>, offset: int)
    ensures
        0 <= logical_offset(s, offset) <= logical(s).len(),
{
    lemma_stripped_offset_monotone(normalized(s), normalized_offset(s, offset), normalized_offset(s, offset));
}

/// The caret stays with its character: after wrapping anew it lies within
/// the new text and has in front of it exactly as much of what the author
/// wrote as it had before.
pub proof fn lemma_reflow_keeps_caret(s: Seq<char>, cursor: int, budget: int)
    ensures
        0 <= reflowed_cursor(s, cursor, budget) <= reflowed_text(s, budget).len(),
        logical_offset(reflowed_text(s, budget), reflowed_cursor(s, cursor, budget))
            == logical_offset(s, cursor),
{
    let shown = reflowed_text(s, budget);
    let wanted = logical_offset(s, cursor);
    lemma_reflow_preserves_content(s, budget);
    lemma_logical_offset_bounds(s, cursor);
    lemma_anchor_exists(shown, wanted);
    lemma_anchor_keeps_offset(shown, wanted, anchored(shown, wanted));
    lemma_logical_offset_of_clean(shown, anchored(shown, wanted));
}

/// Wrapping anew is idempotent: a document that was wrapped for a width and
/// a font size is left as it is, text and caret, when it is wrapped for them
/// once more.
pub proof fn lemma_reflow_idempotent(d: DocumentView, display_width_px: int, font_size_px: int)
    ensures
        reflowed(reflowed(d, display_width_px, font_size_px), display_width_px, font_size_px)
            == reflowed(d, display_width_px, font_size_px),
{
    let budget = budget_of(display_width_px, font_size_px);
    lemma_reflow_text_idempotent(d.text, budget);
    lemma_reflow_keeps_caret(d.text, d.cursor, budget);
}

/// The author's line ends survive: however often and for whatever widths
/// and font sizes a document is wrapped anew, what the author wrote stays
/// the same, and with it the paragraphs, their order and their number.
pub proof fn lemma_hard_breaks_survive(d: DocumentView, contexts: Seq<(int, int)>)
    ensures
        logical(reflowed_through(d, contexts).text) == logical(d.text),
        authored_paragraphs(reflowed_through(d, contexts).text) == authored_paragraphs(d.text),
        hard_break_count(reflowed_through(d, contexts).text) == hard_break_count(d.text),
    decreases contexts.len(),
{
    if contexts.len() > 0 {
        let before = reflowed_through(d, contexts.drop_last());
        lemma_hard_breaks_survive(d, contexts.drop_last());
        lemma_reflow_preserves_content(
            before.text,
            budget_of(contexts.last().0, contexts.last().1),
        );
    }
}

/// The caret stays with its character through any number of wrappings.
pub proof fn lemma_caret_survives(d: DocumentView, contexts: Seq<(int, int)>)
    ensures
        logical_offset(reflowed_through(d, contexts).text, reflowed_through(d, contexts).cursor)
            == logical_offset(d.text, d.cursor),
    decreases contexts.len(),
{
    if contexts.len() > 0 {
        let before = reflowed_through(d, contexts.drop_last());
        lemma_caret_survives(d, contexts.drop_last());
        lemma_reflow_keeps_caret(
            before.text,
            before.cursor,
            budget_of(contexts.last().0, contexts.last().1),
        );
    }
}

} // verus!
