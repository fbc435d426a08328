use reflow::breaking::{line_badness, reconstruct, solve, Line};
use reflow::layout::{format_paragraph, DEFAULT_WIDTH};
use reflow::render::{render_centered, render_joined, render_justified, Align};
use reflow::words::{tokenize, widths};

fn chars(s: &str) -> Vec<char> {
    s.chars().collect()
}

fn word_list(text: &str) -> Vec<Vec<char>> {
    text.split(' ').map(chars).collect()
}

#[test]
fn short_paragraph_is_one_ragged_line() {
    let out = format_paragraph(
        "the quick brown fox jumps over the lazy dog",
        Align::Justify,
        DEFAULT_WIDTH,
    );
    assert_eq!(out, vec!["the quick brown fox jumps over the lazy dog".to_string(), String::new()]);
}

#[test]
fn narrow_justified_partition() {
    let words = tokenize("alpha beta gamma delta");
    assert_eq!(widths(&words), vec![6, 5, 6, 6]);
    let out = format_paragraph("alpha beta gamma delta", Align::Justify, 10);
    assert_eq!(out, vec!["alpha beta", "gamma", "delta", ""]);
}

#[test]
fn centered_title() {
    let out = format_paragraph("A Title Here", Align::Center, 20);
    let indent = (20 - "A Title Here".len()) / 2;
    assert_eq!(indent, 4);
    assert_eq!(out, vec!["    A Title Here".to_string(), String::new()]);
}

#[test]
fn empty_text_gives_only_the_separator() {
    assert!(tokenize("").is_empty());
    assert!(tokenize(" \t\n ").is_empty());
    assert_eq!(format_paragraph("", Align::Justify, DEFAULT_WIDTH), vec![String::new()]);
    assert_eq!(format_paragraph("", Align::Center, DEFAULT_WIDTH), vec![String::new()]);
    assert_eq!(format_paragraph("  \n ", Align::Justify, 10), vec![String::new()]);
}

#[test]
fn tokenize_splits_on_all_whitespace() {
    let words = tokenize("  one\ttwo\u{3000}three\u{a0}four\n\nfive  ");
    assert_eq!(words, vec![chars("one"), chars("two"), chars("three"), chars("four"), chars("five")]);
    assert_eq!(tokenize("héllo wörld"), vec![chars("héllo"), chars("wörld")]);
}

#[test]
fn widths_count_characters_plus_separator() {
    assert_eq!(widths(&tokenize("a bb héé")), vec![2, 3, 4]);
}

#[test]
fn badness_values() {
    assert_eq!(line_badness(5, 1), 125);
    assert_eq!(line_badness(0, 1), 0);
    assert_eq!(line_badness(8, 3), 128);
    assert_eq!(line_badness(7, 3), 54);
    assert_eq!(line_badness(2, 4), 0);
    assert_eq!(line_badness(1048577, 1), 1152924803144876033);
}

#[test]
fn solver_back_pointers() {
    let back = solve(&vec![6, 5, 6, 6], 10, true);
    assert_eq!(
        back,
        vec![
            Line { words: 0, slack: 0 },
            Line { words: 1, slack: 5 },
            Line { words: 2, slack: 0 },
            Line { words: 1, slack: 5 },
            Line { words: 1, slack: 5 },
        ]
    );
    let lines = reconstruct(&back, 4);
    assert_eq!(
        lines,
        vec![Line { words: 2, slack: 0 }, Line { words: 1, slack: 5 }, Line { words: 1, slack: 5 }]
    );
}

#[test]
fn center_costs_the_last_line() {
    let back = solve(&vec![2, 6, 5], 20, false);
    assert_eq!(back[3], Line { words: 3, slack: 8 });
    let back = solve(&vec![2, 6, 5], 20, true);
    assert_eq!(reconstruct(&back, 3).iter().map(|l| l.words).sum::<usize>(), 3);
}

#[test]
fn justified_spaces_floor_per_gap() {
    let words = word_list("a b c d");
    let line = render_justified(&words, 0, 4, 2);
    assert_eq!(line.iter().collect::<String>(), "a b  c  d");
    assert_eq!(line.len(), 9);
    let line = render_justified(&words, 1, 1, 3);
    assert_eq!(line.iter().collect::<String>(), "b");
}

#[test]
fn joined_and_centered_lines() {
    let words = word_list("x yy zzz");
    assert_eq!(render_joined(&words, 0, 3).iter().collect::<String>(), "x yy zzz");
    assert_eq!(render_centered(&words, 1, 2, 5).iter().collect::<String>(), "  yy zzz");
}

#[test]
fn overwide_word_stands_alone() {
    let out = format_paragraph("abcdef gh", Align::Justify, 3);
    assert_eq!(out, vec!["abcdef", "gh", ""]);
    let out = format_paragraph("abcdef", Align::Center, 3);
    assert_eq!(out, vec!["abcdef", ""]);
}

#[test]
fn justified_lines_fill_the_width() {
    let text = "Lorem ipsum dolor sit amet, consectetur adipiscing elit, sed do eiusmod \
                tempor incididunt ut labore et dolore magna aliqua. Ut enim ad minim veniam, \
                quis nostrud exercitation ullamco laboris nisi ut aliquip ex ea commodo consequat.";
    for width in [20usize, 30, 40, 72] {
        let out = format_paragraph(text, Align::Justify, width);
        assert!(out.len() >= 3);
        assert_eq!(out.last().unwrap(), "");
        for line in &out[..out.len() - 2] {
            if line.split_whitespace().count() > 1 {
                assert_eq!(line.chars().count(), width);
            }
        }
        let all: Vec<&str> = out.iter().flat_map(|l| l.split_whitespace()).collect();
        assert_eq!(all, text.split_whitespace().collect::<Vec<_>>());
    }
}

#[test]
fn centered_lines_stay_within_width() {
    let text = "In the beginning was the word and the word was set in fixed width type";
    for width in [12usize, 20, 33] {
        let out = format_paragraph(text, Align::Center, width);
        for line in &out {
            assert!(line.chars().count() <= width);
        }
        let all: Vec<&str> = out.iter().flat_map(|l| l.split_whitespace()).collect();
        assert_eq!(all, text.split_whitespace().collect::<Vec<_>>());
    }
}

#[test]
fn same_input_same_output() {
    let text = "one two three four five six seven eight nine ten";
    assert_eq!(format_paragraph(text, Align::Justify, 15), format_paragraph(text, Align::Justify, 15));
    assert_eq!(format_paragraph(text, Align::Center, 15), format_paragraph(text, Align::Center, 15));
}

#[test]
fn rejoined_justified_line_retokenizes() {
    let text = "aaa bb c dddd ee fff g hh iiii jj";
    let out = format_paragraph(text, Align::Justify, 11);
    for line in &out {
        let words: Vec<&str> = line.split_whitespace().collect();
        let rejoined = words.join(" ");
        let again: Vec<Vec<char>> = tokenize(&rejoined);
        assert_eq!(again, words.iter().map(|w| chars(w)).collect::<Vec<_>>());
    }
}

#[test]
fn whitespace_matches_std() {
    for u in 0u32..0x3100 {
        if let Some(c) = char::from_u32(u) {
            let text = format!("a{}b", c);
            let expected = if c.is_whitespace() { 2 } else { 1 };
            assert_eq!(tokenize(&text).len(), expected, "code point {:x}", u);
        }
    }
}
