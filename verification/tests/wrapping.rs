use binder_clip::context::character_budget;
use binder_clip::marker::{strip_soft_breaks, SOFT_BREAK};
use binder_clip::reflow::{layout, reflow, reflow_text, wrap_paragraph, Document};
use binder_clip::wrap::{line_end, measure, next_stop, wrap};

fn chars(s: &str) -> Vec<char> {
    s.chars().collect()
}

fn text(v: &[char]) -> String {
    v.iter().collect()
}

fn lines_of(paragraph: &str, budget: usize) -> Vec<String> {
    wrap(&chars(paragraph), budget).iter().map(|line| text(line)).collect()
}

fn soft() -> String {
    format!("{}\n", SOFT_BREAK)
}

#[test]
fn short_paragraph_is_one_line() {
    assert_eq!(lines_of("hello world", 11), vec!["hello world".to_string()]);
    assert_eq!(lines_of("hello world", 80), vec!["hello world".to_string()]);
}

#[test]
fn empty_paragraph_is_one_empty_line() {
    assert_eq!(lines_of("", 5), vec![String::new()]);
}

#[test]
fn words_are_packed_greedily() {
    assert_eq!(
        lines_of("the quick brown fox jumps", 10),
        vec!["the quick ".to_string(), "brown fox ".to_string(), "jumps".to_string()]
    );
}

#[test]
fn spaces_at_the_break_do_not_count() {
    assert_eq!(lines_of("abcde fghij", 5), vec!["abcde ".to_string(), "fghij".to_string()]);
    assert_eq!(lines_of("abcde    fghij", 5), vec!["abcde    ".to_string(), "fghij".to_string()]);
}

#[test]
fn long_word_stands_alone_unsplit() {
    assert_eq!(
        lines_of("a incomprehensibilities b", 5),
        vec!["a ".to_string(), "incomprehensibilities ".to_string(), "b".to_string()]
    );
}

#[test]
fn scenario_two_words_at_width_40_font_10() {
    let budget: usize = character_budget(40, 10);
    assert_eq!(budget, 8);
    let doc = Document { text: chars("abcdefgh ijkl"), cursor: 0 };
    let out = reflow(&doc, 40, 10);
    assert_eq!(text(&out.text), format!("abcdefgh {}ijkl", soft()));
    assert_eq!(lines_of("abcdefgh ijkl", budget), vec!["abcdefgh ".to_string(), "ijkl".to_string()]);
}

#[test]
fn scenario_two_words_each_longer_than_budget() {
    assert_eq!(lines_of("abcdefgh ijkl", 2), vec!["abcdefgh ".to_string(), "ijkl".to_string()]);
    assert_eq!(text(&wrap_paragraph(&chars("abcdefgh ijkl"), 2)), format!("abcdefgh {}ijkl", soft()));
}

#[test]
fn budget_below_one_counts_as_one() {
    assert_eq!(lines_of("a b c", 0), lines_of("a b c", 1));
    assert_eq!(lines_of("a b c", 0), vec!["a ".to_string(), "b ".to_string(), "c".to_string()]);
}

#[test]
fn leading_spaces_that_do_not_fit_with_the_first_word() {
    assert_eq!(lines_of("   abcd", 4), vec!["   ".to_string(), "abcd".to_string()]);
    assert_eq!(lines_of("  ab cd", 4), vec!["  ab ".to_string(), "cd".to_string()]);
}

#[test]
fn paragraph_of_spaces_is_one_line() {
    assert_eq!(lines_of("        ", 3), vec!["        ".to_string()]);
}

#[test]
fn stops_and_line_ends() {
    let p = chars("ab  cd e");
    assert_eq!(next_stop(&p, 0), 4);
    assert_eq!(next_stop(&p, 4), 7);
    assert_eq!(next_stop(&p, 7), 8);
    assert_eq!(next_stop(&p, 8), 8);
    assert_eq!(next_stop(&p, 100), 8);
    assert_eq!(measure(&p, 0, 4), 2);
    assert_eq!(measure(&p, 0, 7), 6);
    assert_eq!(measure(&p, 4, 4), 0);
    assert_eq!(line_end(&p, 0, 6), 7);
    assert_eq!(line_end(&p, 0, 5), 4);
    assert_eq!(line_end(&p, 0, 1), 4);
    assert_eq!(line_end(&p, 0, 8), 8);
    assert_eq!(line_end(&p, 8, 3), 8);
}

#[test]
fn lines_put_end_to_end_are_the_paragraph() {
    let p = "  one two   three four five   six seven eight nine ten  ";
    for budget in 0..20 {
        let joined: String = lines_of(p, budget).concat();
        assert_eq!(joined, p);
    }
}

#[test]
fn every_line_is_within_budget_or_a_lone_long_word() {
    let p = "a bb ccc dddd eeeee ffffff ggggggg hhhhhhhh  iiiiiiiii j";
    for budget in 1..12 {
        for line in lines_of(p, budget) {
            let visible = line.trim_end_matches(' ');
            let count: usize = visible.chars().count();
            assert!(count <= budget || (!visible.contains(' ') && count > budget));
        }
    }
}

#[test]
fn code_points_are_counted_not_bytes_or_columns() {
    assert_eq!(lines_of("日本語 テキスト", 4), vec!["日本語 ".to_string(), "テキスト".to_string()]);
    assert_eq!(lines_of("日本語 テキスト", 8), vec!["日本語 テキスト".to_string()]);
    assert_eq!(lines_of("привет мир", 6), vec!["привет ".to_string(), "мир".to_string()]);
}

#[test]
fn paragraphs_are_wrapped_one_by_one() {
    let out = layout(&chars("aaa bbb\n\nccc ddd eee\n"), 7);
    assert_eq!(text(&out), format!("aaa bbb\n\nccc ddd {}eee\n", soft()));
}

#[test]
fn wrapping_a_wrapped_text_changes_nothing() {
    let source = "Lorem ipsum dolor sit amet,  consectetur\nadipiscing elit\n\nsed do eiusmod tempor";
    for budget in 0..30 {
        let once = reflow_text(&chars(source), budget);
        let twice = reflow_text(&once, budget);
        assert_eq!(once, twice);
    }
}

#[test]
fn wrapping_keeps_what_was_written() {
    let source = "Lorem ipsum dolor sit amet,  consectetur\nadipiscing elit\n\nsed do eiusmod tempor";
    for budget in 0..30 {
        let once = reflow_text(&chars(source), budget);
        assert_eq!(text(&strip_soft_breaks(&once)), source);
    }
}

#[test]
fn hard_breaks_survive_changing_widths() {
    let source = "one two three\nfour five six seven\n\neight";
    let mut shown = chars(source);
    for (width, font) in [(200, 18), (60, 18), (60, 44), (15, 8), (400, 19), (0, 10)] {
        shown = reflow(&Document { text: shown, cursor: 0 }, width, font).text;
        let plain = text(&strip_soft_breaks(&shown));
        assert_eq!(plain, source);
        assert_eq!(plain.matches('\n').count(), 3);
    }
}

#[test]
fn narrowing_then_widening_gives_the_text_back() {
    let source = "one two three four five";
    let narrow = reflow_text(&chars(source), 5);
    assert_eq!(
        text(&narrow),
        format!("one {s}two {s}three {s}four {s}five", s = soft())
    );
    let wide = reflow_text(&narrow, 80);
    assert_eq!(text(&wide), source);
}

#[test]
fn mixed_line_endings_are_normalized_before_wrapping() {
    let out = reflow_text(&chars("aa bb\r\ncc\rdd"), 2);
    assert_eq!(text(&out), format!("aa {}bb\ncc\ndd", soft()));
}

#[test]
fn stray_marker_is_taken_out() {
    let source = format!("ab{}cd", SOFT_BREAK);
    assert_eq!(text(&reflow_text(&chars(&source), 10)), "abcd");
}
