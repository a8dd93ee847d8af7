use binder_clip::marker::SOFT_BREAK;
use binder_clip::reflow::wrap_paragraph;

fn chars(s: &str) -> Vec<char> {
    s.chars().collect()
}

fn text(v: &[char]) -> String {
    v.iter().collect()
}

fn filled_in_place(paragraph: &str, width: usize) -> String {
    let mut filled = String::from(paragraph);
    textwrap::fill_inplace(&mut filled, width);
    filled
}

fn breaks_as_line_feeds(paragraph: &str, budget: usize) -> String {
    let wrapped = text(&wrap_paragraph(&chars(paragraph), budget));
    wrapped.replace(&format!(" {}\n", SOFT_BREAK), "\n")
}

#[test]
fn breaks_fall_where_first_fit_filling_puts_them() {
    let paragraph = "It is a long established fact that a reader will be distracted by the \
                     readable content of a page when looking at its layout.";
    for width in 1..90 {
        assert_eq!(breaks_as_line_feeds(paragraph, width), filled_in_place(paragraph, width));
    }
}

#[test]
fn long_words_stand_alone_as_in_first_fit_filling() {
    let paragraph = "a pneumonoultramicroscopicsilicovolcanoconiosis is no antidisestablishmentarianism";
    for width in 1..60 {
        assert_eq!(breaks_as_line_feeds(paragraph, width), filled_in_place(paragraph, width));
    }
}
