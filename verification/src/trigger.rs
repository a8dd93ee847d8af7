use crate::context::{budget_of, WrapContext};
use crate::display::{all_within_budget, display_lines, lemma_reflowed_within_budget};
use crate::font::{apply_font_delta, font_size_after};
use crate::laws::{lemma_reflow_of_nothing, lemma_reflow_text_idempotent};
use crate::reflow::{reflow, reflowed, reflowed_text, Document, DocumentView};
use crate::wrap::{copy_range, effective_budget};
use vstd::prelude::*;

verus! {

/// What the engine last wrapped for, and what came out.
#[derive(Clone, Debug, PartialEq, Eq)]
pub struct ReflowState {
    /// The width that the text was wrapped for.
    pub display_width_px: i32,
    /// The font size that the text was wrapped for.
    pub font_size_px: i32,
    /// The text as the wrapping left it.
    pub content: Vec<char>,
}

/// Whether the text on the surface is the one that was wrapped for the
/// present width and font size.
#[derive(Clone, Copy, Debug, PartialEq, Eq, Structural)]
pub enum Staleness {
    /// Nothing has changed since the last wrapping.
    Clean,
    /// The width, the font size or the text has changed since.
    Dirty,
}

/// Whether a wrapping made for the `last_` values is out of date: the width,
/// the font size or the text differs from what it was made for. Each of the
/// three alone is enough.
pub open spec fn stale(
    last_width: int,
    last_font_size: int,
    last_content: Seq<char>,
    width: int,
    font_size: int,
    content: Seq<char>,
) -> bool {
    last_width != width || last_font_size != font_size || last_content != content
}

/// Tells whether two texts are the same, character for character.
pub fn same_text(a: &Vec<char>, b: &Vec<char>) -> (same: bool)
    ensures
        same == (a@ == b@),
{
    if a.len() != b.len() {
        return false;
    }
    let mut i: usize = 0;
    while i < a.len()
        invariant
            0 <= i <= a.len(),
            a.len() == b.len(),
            a@.take(i as int) == b@.take(i as int),
        decreases a.len() - i,
    {
        if a[i] != b[i] {
            return false;
        }
        proof {
            assert(a@.take(i + 1) == a@.take(i as int).push(a@[i as int]));
            assert(b@.take(i + 1) == b@.take(i as int).push(b@[i as int]));
        }
        i += 1;
    }
    proof {
        assert(a@.take(a.len() as int) == a@);
        assert(b@.take(b.len() as int) == b@);
    }
    true
}

/// Tells whether the text has to be wrapped anew: whether the width, the
/// font size or the text differs from what the last wrapping was made for.
pub fn is_dirty(
    last_width: i32,
    last_font_size: i32,
    last_content: &Vec<char>,
    width: i32,
    font_size: i32,
    content: &Vec<char>,
) -> (dirty: bool)
    ensures
        dirty == stale(
            last_width as int,
            last_font_size as int,
            last_content@,
            width as int,
            font_size as int,
            content@,
        ),
{
    last_width != width || last_font_size != font_size || !same_text(last_content, content)
}

impl ReflowState {
    /// Tells whether what was wrapped is out of date for a width, a font
    /// size and a text.
    pub fn is_stale_for(&self, context: WrapContext, content: &Vec<char>) -> (dirty: bool)
        ensures
            dirty == stale(
                self.display_width_px as int,
                self.font_size_px as int,
                self.content@,
                context.display_width_px as int,
                context.font_size_px as int,
                content@,
            ),
    {
        is_dirty(
            self.display_width_px,
            self.font_size_px,
            &self.content,
            context.display_width_px,
            context.font_size_px,
            content,
        )
    }
}

/// The state of an editing surface as contracts see it.
pub struct EditorView {
    /// The text on the surface and its caret.
    pub document: DocumentView,
    /// The width and font size of the present frame.
    pub context: WrapContext,
    /// The width that the text was last wrapped for.
    pub wrapped_width_px: int,
    /// The font size that the text was last wrapped for.
    pub wrapped_font_size_px: int,
    /// The text as the last wrapping left it.
    pub wrapped_content: Seq<char>,
}

impl EditorView {
    /// Whether the text has to be wrapped anew.
    pub open spec fn is_stale(self) -> bool {
        stale(
            self.wrapped_width_px,
            self.wrapped_font_size_px,
            self.wrapped_content,
            self.context.display_width_px as int,
            self.context.font_size_px as int,
            self.document.text,
        )
    }

    /// The budget of the present frame.
    pub open spec fn budget(self) -> int {
        budget_of(self.context.display_width_px as int, self.context.font_size_px as int)
    }

    /// The state with the width and font size of a new frame, all else
    /// untouched.
    pub open spec fn in_context(self, context: WrapContext) -> EditorView {
        EditorView { context, ..self }
    }

    /// The state after the once-per-frame step: left alone where it is
    /// clean, and where it is dirty shown wrapped anew, with the wrapping
    /// recorded.
    pub open spec fn refreshed(self) -> EditorView {
        if self.is_stale() {
            let shown = reflowed(
                self.document,
                self.context.display_width_px as int,
                self.context.font_size_px as int,
            );
            EditorView {
                document: shown,
                context: self.context,
                wrapped_width_px: self.context.display_width_px as int,
                wrapped_font_size_px: self.context.font_size_px as int,
                wrapped_content: shown.text,
            }
        } else {
            self
        }
    }
}

/// The once-per-frame step leaves a clean state, and on a clean state it
/// changes nothing: the text that it put on the surface is not taken for an
/// edit.
pub proof fn lemma_refreshed_is_clean(v: EditorView)
    ensures
        !v.refreshed().is_stale(),
        v.refreshed().refreshed() == v.refreshed(),
        !v.is_stale() ==> v.refreshed() == v,
{
}

/// An editing surface: its text and caret, the width and font size of the
/// present frame, and a record of the last wrapping. Changes to any of the
/// three leave the text as it is; `refresh`, called once per frame, wraps it
/// anew when it is out of date.
pub struct Editor {
    document: Document,
    context: WrapContext,
    wrapped_for: ReflowState,
}

impl View for Editor {
    type V = EditorView;

    closed spec fn view(&self) -> EditorView {
        EditorView {
            document: self.document@,
            context: self.context,
            wrapped_width_px: self.wrapped_for.display_width_px as int,
            wrapped_font_size_px: self.wrapped_for.font_size_px as int,
            wrapped_content: self.wrapped_for.content@,
        }
    }
}

impl Editor {
    /// What is recorded of the last wrapping is a text that wrapping for the
    /// recorded width and font size leaves as it is.
    #[verifier::type_invariant]
    closed spec fn recorded_is_wrapped(&self) -> bool {
        self.wrapped_for.content@ == reflowed_text(
            self.wrapped_for.content@,
            budget_of(
                self.wrapped_for.display_width_px as int,
                self.wrapped_for.font_size_px as int,
            ),
        )
    }

    /// An empty surface of the given width and font size, with nothing to
    /// wrap.
    pub fn new(display_width_px: i32, font_size_px: i32) -> (editor: Editor)
        ensures
            editor@.document.text == Seq::<char>::empty(),
            editor@.document.cursor == 0,
            editor@.context == (WrapContext { display_width_px, font_size_px }),
            !editor@.is_stale(),
    {
        proof {
            lemma_reflow_of_nothing(budget_of(display_width_px as int, font_size_px as int));
        }
        Editor {
            document: Document { text: Vec::new(), cursor: 0 },
            context: WrapContext { display_width_px, font_size_px },
            wrapped_for: ReflowState { display_width_px, font_size_px, content: Vec::new() },
        }
    }

    /// The text on the surface.
    pub fn text(&self) -> (text: &Vec<char>)
        ensures
            text@ == self@.document.text,
    {
        &self.document.text
    }

    /// The number of characters in front of the caret.
    pub fn cursor(&self) -> (cursor: usize)
        ensures
            cursor == self@.document.cursor,
    {
        self.document.cursor
    }

    /// The width and font size of the present frame.
    pub fn context(&self) -> (context: WrapContext)
        ensures
            context == self@.context,
    {
        self.context
    }

    /// What the text was last wrapped for, and what came out.
    pub fn wrapped_for(&self) -> (record: &ReflowState)
        ensures
            record.display_width_px == self@.wrapped_width_px,
            record.font_size_px == self@.wrapped_font_size_px,
            record.content@ == self@.wrapped_content,
    {
        &self.wrapped_for
    }

    /// Takes the width of the surface for the present frame.
    pub fn resize(&mut self, display_width_px: i32)
        ensures
            final(self)@ == (EditorView {
                context: WrapContext {
                    display_width_px,
                    font_size_px: old(self)@.context.font_size_px,
                },
                ..old(self)@
            }),
    {
        proof {
            use_type_invariant(&*self);
        }
        self.context.display_width_px = display_width_px;
    }

    /// Takes a request to change the font size by `delta`. A request that
    /// would leave the offered range is dropped and nothing changes.
    pub fn change_font_size(&mut self, delta: i32)
        ensures
            final(self)@ == (EditorView {
                context: WrapContext {
                    display_width_px: old(self)@.context.display_width_px,
                    font_size_px: font_size_after(
                        old(self)@.context.font_size_px as int,
                        delta as int,
                    ) as i32,
                },
                ..old(self)@
            }),
    {
        proof {
            use_type_invariant(&*self);
        }
        self.context.font_size_px = apply_font_delta(self.context.font_size_px, delta);
    }

    /// Takes the text and caret as the user's editing left them.
    pub fn edit(&mut self, text: Vec<char>, cursor: usize)
        ensures
            final(self)@ == (EditorView {
                document: DocumentView { text: text@, cursor: cursor as int },
                ..old(self)@
            }),
    {
        proof {
            use_type_invariant(&*self);
        }
        self.document = Document { text, cursor };
    }

    /// Tells whether the text has to be wrapped anew. A clean surface shows
    /// a text that wrapping for the present frame would leave as it is, so
    /// each of its display lines is within the budget of the frame or is a
    /// single word too long for it.
    pub fn staleness(&self) -> (state: Staleness)
        ensures
            state == Staleness::Dirty <==> self@.is_stale(),
            state == Staleness::Clean ==> self@.document.text == reflowed_text(
                self@.document.text,
                self@.budget(),
            ),
            state == Staleness::Clean ==> all_within_budget(
                display_lines(self@.document.text),
                effective_budget(self@.budget()),
            ),
    {
        proof {
            use_type_invariant(self);
            lemma_reflowed_within_budget(
                self.wrapped_for.content@,
                budget_of(
                    self.wrapped_for.display_width_px as int,
                    self.wrapped_for.font_size_px as int,
                ),
            );
        }
        if self.wrapped_for.is_stale_for(self.context, &self.document.text) {
            Staleness::Dirty
        } else {
            Staleness::Clean
        }
    }

    /// The once-per-frame step. A clean surface is left alone. On a dirty
    /// one the text is wrapped anew for the present width and font size, the
    /// caret is moved along, and the outcome is recorded, so that the new
    /// text is not taken for an edit: the surface is clean afterwards. Tells
    /// whether the text was wrapped.
    pub fn refresh(&mut self) -> (wrapped: bool)
        ensures
            wrapped == old(self)@.is_stale(),
            final(self)@ == old(self)@.refreshed(),
            !final(self)@.is_stale(),
    {
        match self.staleness() {
            Staleness::Clean => false,
            Staleness::Dirty => {
                let next = reflow(
                    &self.document,
                    self.context.display_width_px,
                    self.context.font_size_px,
                );
                let content = copy_range(&next.text, 0, next.text.len());
                proof {
                    assert(content@ == next.text@);
                    lemma_reflow_text_idempotent(self.document.text@, self@.budget());
                }
                self.wrapped_for = ReflowState {
                    display_width_px: self.context.display_width_px,
                    font_size_px: self.context.font_size_px,
                    content,
                };
                self.document = next;
                true
            },
        }
    }

    /// One whole frame in the order that keeps a stale wrapping off the
    /// screen: first the width and the font request of the frame are taken,
    /// then the text is wrapped anew if that or an edit made it stale. What
    /// the surface holds afterwards is fit to be drawn. Tells whether the
    /// text was wrapped.
    pub fn frame(&mut self, display_width_px: i32, font_delta: i32) -> (wrapped: bool)
        ensures
            final(self)@ == old(self)@.in_context(
                WrapContext {
                    display_width_px,
                    font_size_px: font_size_after(
                        old(self)@.context.font_size_px as int,
                        font_delta as int,
                    ) as i32,
                },
            ).refreshed(),
            wrapped == old(self)@.in_context(
                WrapContext {
                    display_width_px,
                    font_size_px: font_size_after(
                        old(self)@.context.font_size_px as int,
                        font_delta as int,
                    ) as i32,
                },
            ).is_stale(),
            !final(self)@.is_stale(),
    {
        self.resize(display_width_px);
        self.change_font_size(font_delta);
        self.refresh()
    }
}

} // verus!
