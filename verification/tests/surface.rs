use binder_clip::context::{character_budget, WrapContext};
use binder_clip::display::split_display_lines;
use binder_clip::font::{apply_font_delta, MAX_FONT_SIZE, MIN_FONT_SIZE};
use binder_clip::marker::SOFT_BREAK;
use binder_clip::reflow::{reflow, Document};
use binder_clip::trigger::{is_dirty, same_text, Editor, ReflowState, Staleness};
use binder_clip::window::{WindowProps, DEFAULT_ALWAYS_ON_TOP};

fn chars(s: &str) -> Vec<char> {
    s.chars().collect()
}

fn text(v: &[char]) -> String {
    v.iter().collect()
}

fn soft() -> String {
    format!("{}\n", SOFT_BREAK)
}

#[test]
fn budget_is_width_over_half_the_font_size() {
    assert_eq!(character_budget(40, 10), 8);
    assert_eq!(character_budget(400, 18), 44);
    assert_eq!(character_budget(400, 19), 44);
    assert_eq!(character_budget(739, 18), 82);
    assert_eq!(character_budget(8, 8), 2);
    assert_eq!(character_budget(i32::MAX, 2), 2147483647);
}

#[test]
fn budget_is_one_where_nothing_fits() {
    assert_eq!(character_budget(0, 10), 1);
    assert_eq!(character_budget(3, 8), 1);
    assert_eq!(character_budget(-21, 18), 1);
    assert_eq!(character_budget(100, 1), 1);
    assert_eq!(character_budget(100, 0), 1);
    assert_eq!(character_budget(100, -4), 1);
    assert_eq!(character_budget(i32::MIN, i32::MIN), 1);
}

#[test]
fn context_gives_its_budget() {
    let context = WrapContext { display_width_px: 90, font_size_px: 18 };
    assert_eq!(context.budget(), 10);
}

#[test]
fn font_size_changes_within_the_range() {
    assert_eq!(apply_font_delta(18, 1), 19);
    assert_eq!(apply_font_delta(18, -1), 17);
    assert_eq!(apply_font_delta(MIN_FONT_SIZE + 1, -1), MIN_FONT_SIZE);
    assert_eq!(apply_font_delta(MAX_FONT_SIZE - 1, 1), MAX_FONT_SIZE);
}

#[test]
fn font_size_request_outside_the_range_is_dropped() {
    assert_eq!(MIN_FONT_SIZE, 8);
    assert_eq!(MAX_FONT_SIZE, 44);
    assert_eq!(apply_font_delta(MIN_FONT_SIZE, -1), MIN_FONT_SIZE);
    assert_eq!(apply_font_delta(MAX_FONT_SIZE, 1), MAX_FONT_SIZE);
    assert_eq!(apply_font_delta(18, 100), 18);
    assert_eq!(apply_font_delta(18, i32::MAX), 18);
    assert_eq!(apply_font_delta(-5, i32::MIN), -5);
}

#[test]
fn font_size_change_alone_makes_dirty() {
    let content = chars("same text");
    assert!(!is_dirty(300, 18, &content, 300, 18, &content));
    assert!(is_dirty(300, 18, &content, 300, 19, &content));
    assert!(is_dirty(300, 18, &content, 300, 19, &chars("other text")));
}

#[test]
fn width_or_content_change_alone_makes_dirty() {
    let content = chars("same text");
    assert!(is_dirty(300, 18, &content, 301, 18, &content));
    assert!(is_dirty(300, 18, &content, 300, 18, &chars("same texT")));
    assert!(is_dirty(300, 18, &content, 300, 18, &chars("same tex")));
    assert!(!is_dirty(300, 18, &content, 300, 18, &chars("same text")));
}

#[test]
fn same_text_compares_character_by_character() {
    assert!(same_text(&chars(""), &chars("")));
    assert!(same_text(&chars("abc"), &chars("abc")));
    assert!(!same_text(&chars("abc"), &chars("abd")));
    assert!(!same_text(&chars("abc"), &chars("ab")));
}

#[test]
fn caret_follows_a_word_to_the_next_line() {
    let doc = Document { text: chars("aaa bbb ccc"), cursor: 7 };
    let wide = reflow(&doc, 100, 10);
    assert_eq!(text(&wide.text), "aaa bbb ccc");
    assert_eq!(wide.cursor, 7);
    let narrow = reflow(&wide, 20, 10);
    assert_eq!(text(&narrow.text), format!("aaa {s}bbb {s}ccc", s = soft()));
    assert_eq!(narrow.cursor, 9);
    assert_eq!(narrow.text[narrow.cursor - 1], 'b');
    assert_eq!(narrow.text[narrow.cursor], ' ');
    let back = reflow(&narrow, 100, 10);
    assert_eq!(text(&back.text), "aaa bbb ccc");
    assert_eq!(back.cursor, 7);
}

#[test]
fn caret_in_front_of_a_moved_word_stays_on_the_line_above() {
    let doc = Document { text: chars("aaa bbb"), cursor: 4 };
    let out = reflow(&doc, 20, 10);
    assert_eq!(text(&out.text), format!("aaa {}bbb", soft()));
    assert_eq!(out.cursor, 4);
    assert_eq!(out.text[out.cursor], SOFT_BREAK);
}

#[test]
fn caret_past_the_end_goes_to_the_end() {
    let doc = Document { text: chars("aaa bbb"), cursor: 1000 };
    let out = reflow(&doc, 20, 10);
    assert_eq!(out.cursor, out.text.len());
    let empty = reflow(&Document { text: Vec::new(), cursor: 3 }, 20, 10);
    assert_eq!(empty.cursor, 0);
    assert!(empty.text.is_empty());
}

#[test]
fn reflow_of_a_reflowed_document_is_the_same_document() {
    let doc = Document { text: chars("one two  three\r\nfour five six\rseven"), cursor: 17 };
    for (width, font) in [(10, 8), (33, 18), (90, 44), (500, 12), (-1, 10)] {
        let once = reflow(&doc, width, font);
        let twice = reflow(&once, width, font);
        assert_eq!(once.text, twice.text);
        assert_eq!(once.cursor, twice.cursor);
    }
}

#[test]
fn new_surface_is_clean_and_empty() {
    let editor = Editor::new(300, 18);
    assert_eq!(editor.staleness(), Staleness::Clean);
    assert!(editor.text().is_empty());
    assert_eq!(editor.cursor(), 0);
    assert_eq!(editor.context(), WrapContext { display_width_px: 300, font_size_px: 18 });
}

#[test]
fn font_size_18_to_19_makes_the_surface_dirty() {
    let mut editor = Editor::new(300, 18);
    editor.edit(chars("some words to show"), 4);
    assert!(editor.refresh());
    assert_eq!(editor.staleness(), Staleness::Clean);
    let shown = editor.text().clone();
    editor.change_font_size(1);
    assert_eq!(editor.context().font_size_px, 19);
    assert_eq!(editor.context().display_width_px, 300);
    assert_eq!(editor.text(), &shown);
    assert_eq!(editor.staleness(), Staleness::Dirty);
}

#[test]
fn refresh_wraps_once_and_then_rests() {
    let mut editor = Editor::new(50, 10);
    editor.edit(chars("aaa bbb ccc ddd eee"), 19);
    assert_eq!(editor.staleness(), Staleness::Dirty);
    assert!(editor.refresh());
    assert_eq!(text(editor.text()), format!("aaa bbb {s}ccc ddd {s}eee", s = soft()));
    assert_eq!(editor.cursor(), editor.text().len());
    assert_eq!(editor.staleness(), Staleness::Clean);
    assert!(!editor.refresh());
    assert_eq!(text(editor.text()), format!("aaa bbb {s}ccc ddd {s}eee", s = soft()));
}

#[test]
fn resize_makes_dirty_and_refresh_rewraps() {
    let mut editor = Editor::new(50, 10);
    editor.edit(chars("aaa bbb ccc"), 0);
    editor.refresh();
    assert_eq!(text(editor.text()), format!("aaa bbb {}ccc", soft()));
    editor.resize(50);
    assert_eq!(editor.staleness(), Staleness::Clean);
    editor.resize(20);
    assert_eq!(editor.staleness(), Staleness::Dirty);
    assert!(editor.refresh());
    assert_eq!(text(editor.text()), format!("aaa {s}bbb {s}ccc", s = soft()));
    editor.resize(500);
    assert!(editor.refresh());
    assert_eq!(text(editor.text()), "aaa bbb ccc");
}

#[test]
fn rejected_font_request_leaves_the_surface_clean() {
    let mut editor = Editor::new(300, 44);
    editor.edit(chars("text"), 0);
    editor.refresh();
    editor.change_font_size(1);
    assert_eq!(editor.context().font_size_px, 44);
    assert_eq!(editor.staleness(), Staleness::Clean);
    editor.change_font_size(-1);
    assert_eq!(editor.context().font_size_px, 43);
    assert_eq!(editor.staleness(), Staleness::Dirty);
}

#[test]
fn typing_into_a_wrapped_text_keeps_the_caret_behind_the_typed_character() {
    let mut editor = Editor::new(40, 10);
    editor.edit(chars("aaaa bbb"), 8);
    editor.refresh();
    assert_eq!(text(editor.text()), "aaaa bbb");
    let mut typed = editor.text().clone();
    typed.push('c');
    editor.edit(typed, 9);
    assert!(editor.refresh());
    assert_eq!(text(editor.text()), format!("aaaa {}bbbc", soft()));
    assert_eq!(editor.cursor(), 11);
    assert_eq!(editor.text()[editor.cursor() - 1], 'c');
}

#[test]
fn window_properties_toggle() {
    let props = WindowProps::new();
    assert_eq!(props.always_on_top, DEFAULT_ALWAYS_ON_TOP);
    assert!(props.always_on_top);
    assert!(!props.toggled().always_on_top);
    assert_eq!(props.toggled().toggled(), props);
    assert_eq!(WindowProps::default(), props);
}

#[test]
fn frame_takes_width_and_font_before_it_wraps() {
    let mut editor = Editor::new(500, 10);
    editor.edit(chars("aaa bbb ccc"), 11);
    assert!(editor.frame(500, 0));
    assert_eq!(text(editor.text()), "aaa bbb ccc");
    assert!(!editor.frame(500, 0));
    assert!(editor.frame(20, 0));
    assert_eq!(editor.context(), WrapContext { display_width_px: 20, font_size_px: 10 });
    assert_eq!(text(editor.text()), format!("aaa {s}bbb {s}ccc", s = soft()));
    assert_eq!(editor.cursor(), 15);
    assert_eq!(editor.staleness(), Staleness::Clean);
    assert!(editor.frame(20, -1));
    assert_eq!(editor.context(), WrapContext { display_width_px: 20, font_size_px: 9 });
    assert_eq!(text(editor.text()), format!("aaa {s}bbb {s}ccc", s = soft()));
    assert!(editor.frame(20, -1));
    assert_eq!(editor.context().font_size_px, 8);
    assert!(!editor.frame(20, -1));
    assert_eq!(editor.context().font_size_px, 8);
}

#[test]
fn frame_with_nothing_new_leaves_the_surface_alone() {
    let mut editor = Editor::new(60, 12);
    editor.edit(chars("one two three four"), 5);
    assert!(editor.frame(60, 0));
    let shown = editor.text().clone();
    let caret = editor.cursor();
    for _ in 0..3 {
        assert!(!editor.frame(60, 0));
        assert_eq!(editor.text(), &shown);
        assert_eq!(editor.cursor(), caret);
    }
}

#[test]
fn display_lines_of_a_wrapped_text() {
    let wrapped = chars(&format!("aaa {s}bbb\n\nccc {s}ddd", s = soft()));
    let lines: Vec<String> = split_display_lines(&wrapped).iter().map(|l| text(l)).collect();
    assert_eq!(
        lines,
        vec!["aaa ".to_string(), "bbb".to_string(), String::new(), "ccc ".to_string(), "ddd".to_string()]
    );
    let blank: Vec<String> = split_display_lines(&Vec::new()).iter().map(|l| text(l)).collect();
    assert_eq!(blank, vec![String::new()]);
}

#[test]
fn clean_surface_shows_lines_within_the_budget() {
    let source = "alpha beta gamma delta\nepsilon  zeta eta theta iota kappa\n\nlambda";
    for (width, font) in [(30, 10), (64, 16), (100, 44), (7, 8)] {
        let mut editor = Editor::new(width, font);
        editor.edit(chars(source), 0);
        editor.refresh();
        assert_eq!(editor.staleness(), Staleness::Clean);
        let budget: usize = character_budget(width, font);
        for line in split_display_lines(editor.text()) {
            let shown = text(&line);
            let visible = shown.trim_end_matches(' ');
            let count: usize = visible.chars().count();
            assert!(count <= budget || !visible.contains(' '));
            assert!(!shown.contains(SOFT_BREAK));
        }
    }
}

#[test]
fn record_of_the_last_wrapping() {
    let mut editor = Editor::new(20, 10);
    assert_eq!(
        editor.wrapped_for(),
        &ReflowState { display_width_px: 20, font_size_px: 10, content: Vec::new() }
    );
    editor.edit(chars("aaa bbb"), 0);
    editor.resize(30);
    assert!(editor.wrapped_for().content.is_empty());
    assert!(editor.refresh());
    assert_eq!(
        editor.wrapped_for(),
        &ReflowState {
            display_width_px: 30,
            font_size_px: 10,
            content: chars(&format!("aaa {}bbb", soft())),
        }
    );
    let context = WrapContext { display_width_px: 30, font_size_px: 10 };
    assert!(!editor.wrapped_for().is_stale_for(context, editor.text()));
    assert!(editor.wrapped_for().is_stale_for(context, &chars("aaa bbb")));
    let narrower = WrapContext { display_width_px: 29, font_size_px: 10 };
    assert!(editor.wrapped_for().is_stale_for(narrower, editor.text()));
}
