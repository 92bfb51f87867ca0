use typer::config::{Config, Layout};
use typer::quote::Quote;
use typer::tui::{MarkedLine, MarkedQuote, MarkedWord};

fn layout_with_alignment(alignment: usize) -> Layout {
    let mut l = Layout::default();
    l.alignment = alignment;
    l
}

fn config_with_alignment(alignment: usize) -> Config {
    let mut c = Config::default();
    c.layout = layout_with_alignment(alignment);
    c
}

fn line_words(line: &MarkedLine) -> Vec<String> {
    line.words.iter().map(|w| w.chars.iter().collect()).collect()
}

fn doc_words(doc: &MarkedQuote) -> Vec<String> {
    let mut out = Vec::new();
    for line in &doc.lines {
        out.extend(line_words(line));
    }
    out
}

#[test]
fn tokenizer_splits_on_whitespace_and_drops_empty_tokens() {
    let q = Quote::new("name", "  It  was a  ");
    assert_eq!(q.name, "name");
    assert_eq!(q.words, vec!["It", "was", "a"]);
}

#[test]
fn tokenizer_handles_unicode_whitespace() {
    let q = Quote::new("n", "a\u{2003}b\u{a0}c");
    assert_eq!(q.words, vec!["a", "b", "c"]);
}

#[test]
fn tokenizer_empty_source_gives_no_words() {
    let q = Quote::new("n", " \t \n ");
    assert!(q.words.is_empty());
}

#[test]
fn wrap_single_line_exact_fit_has_no_padding() {
    // minimal_len of "ab cd ef" is 8: no slack to distribute
    let q = Quote::new("t", "ab cd ef");
    let doc = MarkedQuote::new(&q, 8);
    assert_eq!(doc.lines.len(), 1);
    assert_eq!(line_words(&doc.lines[0]), vec!["ab", "cd", "ef"]);
    assert_eq!(doc.lines[0].minimal_len(), 8);
    for w in &doc.lines[0].words {
        assert_eq!(w.padding, 0);
    }
}

#[test]
fn wrap_preserves_word_order_across_lines() {
    let q = Quote::new("t", "one two three four five six seven");
    let doc = MarkedQuote::new(&q, 10);
    assert_eq!(
        doc_words(&doc),
        vec!["one", "two", "three", "four", "five", "six", "seven"]
    );
    assert!(doc.lines.len() > 1);
    for line in &doc.lines {
        if line.words.len() >= 2 {
            assert!(line.minimal_len() <= 10);
        }
    }
}

#[test]
fn wrap_places_overlong_word_alone() {
    let q = Quote::new("t", "a extraordinarily b");
    let doc = MarkedQuote::new(&q, 6);
    assert_eq!(doc_words(&doc), vec!["a", "extraordinarily", "b"]);
    // the overlong word sits alone on its line, wider than the alignment
    let overlong: Vec<&MarkedLine> = doc
        .lines
        .iter()
        .filter(|l| l.words.len() == 1 && l.words[0].chars.len() > 6)
        .collect();
    assert_eq!(overlong.len(), 1);
    assert_eq!(overlong[0].words[0].padding, 0);
}

#[test]
fn balance_sums_internal_padding_to_the_slack() {
    // words of lengths 1,1,1 at width 8: minimal_len 5, slack 3 over 2 gaps
    let q = Quote::new("t", "a b c");
    let doc = MarkedQuote::new(&q, 8);
    assert_eq!(doc.lines.len(), 1);
    let line = &doc.lines[0];
    assert_eq!(line.minimal_len(), 5);
    let paddings: Vec<usize> = line.words.iter().map(|w| w.padding).collect();
    // accumulated-fraction rounding spreads 3 over 2 gaps as 2 then 1
    assert_eq!(paddings[0], 2);
    assert_eq!(paddings[1], 1);
    // the sum of the internal gaps plus the minimal length is the width
    assert_eq!(paddings[0] + paddings[1] + line.minimal_len(), 8);
}

#[test]
fn balance_even_distribution() {
    // slack 4 over 2 gaps: exactly 2 per gap
    let q = Quote::new("t", "a b c");
    let doc = MarkedQuote::new(&q, 9);
    let line = &doc.lines[0];
    let paddings: Vec<usize> = line.words.iter().map(|w| w.padding).collect();
    assert_eq!(paddings[0], 2);
    assert_eq!(paddings[1], 2);
    assert_eq!(paddings[0] + paddings[1] + line.minimal_len(), 9);
}

#[test]
fn balance_fails_when_the_line_no_longer_fits() {
    let mut line = MarkedLine::new();
    line.words.push(MarkedWord::new("abcd"));
    line.words.push(MarkedWord::new("efgh"));
    // minimal_len 9 cannot be justified into 8 columns
    assert_eq!(line.minimal_len(), 9);
    assert!(line.balance(8).is_none());
    assert!(line.balance(9).is_some());
}

#[test]
fn balance_counts_the_typed_overrun() {
    let mut line = MarkedLine::new();
    let mut w = MarkedWord::new("ab");
    w.actual_chars = vec!['a', 'b', 'c', 'd'];
    line.words.push(w);
    line.words.push(MarkedWord::new("cd"));
    // the wider of expected and typed counts: max(2,4) + 1 + 2
    assert_eq!(line.minimal_len(), 7);
}

#[test]
fn marked_word_len_is_cell_width_plus_padding() {
    let mut w = MarkedWord::new("abc");
    w.padding = 2;
    assert_eq!(w.len(), 5);
    w.actual_chars = vec!['a', 'b', 'c', 'd', 'e'];
    assert_eq!(w.len(), 7);
}

#[test]
fn reflow_is_a_no_op_on_a_balanced_document() {
    let q = Quote::new("t", "one two three four five");
    let mut doc = MarkedQuote::new(&q, 10);
    let before: Vec<Vec<(String, String, usize)>> = doc
        .lines
        .iter()
        .map(|l| {
            l.words
                .iter()
                .map(|w| {
                    (
                        w.chars.iter().collect::<String>(),
                        w.actual_chars.iter().collect::<String>(),
                        w.padding,
                    )
                })
                .collect()
        })
        .collect();
    for i in 0..doc.lines.len() {
        let r = doc.rebuild(i);
        assert_eq!(r, i);
    }
    let after: Vec<Vec<(String, String, usize)>> = doc
        .lines
        .iter()
        .map(|l| {
            l.words
                .iter()
                .map(|w| {
                    (
                        w.chars.iter().collect::<String>(),
                        w.actual_chars.iter().collect::<String>(),
                        w.padding,
                    )
                })
                .collect()
        })
        .collect();
    assert_eq!(before, after);
}

#[test]
fn reflow_carries_the_displaced_word_to_a_new_line() {
    // one line "ab cd" at width 5; typing one character past "ab" makes the
    // line over-full, so "cd" moves to a freshly appended line
    let q = Quote::new("t", "ab cd");
    let mut doc = MarkedQuote::new(&q, 5);
    assert_eq!(doc.lines.len(), 1);
    doc.lines[0].words[0].actual_chars = vec!['a', 'b', 'c'];
    let last = doc.rebuild(0);
    assert_eq!(last, 1);
    assert_eq!(doc.lines.len(), 2);
    assert_eq!(line_words(&doc.lines[0]), vec!["ab"]);
    assert_eq!(line_words(&doc.lines[1]), vec!["cd"]);
    assert_eq!(doc_words(&doc), vec!["ab", "cd"]);
}

#[test]
fn reflow_cascades_between_lines_without_reordering() {
    // two full lines; an overrun on the first pushes its last word onto the
    // second, whose own last word moves to a new third line
    let q = Quote::new("t", "aa bb cc dd");
    let mut doc = MarkedQuote::new(&q, 5);
    assert_eq!(doc.lines.len(), 2);
    assert_eq!(line_words(&doc.lines[0]), vec!["aa", "bb"]);
    assert_eq!(line_words(&doc.lines[1]), vec!["cc", "dd"]);
    doc.lines[0].words[0].actual_chars = vec!['a', 'a', 'x'];
    let last = doc.rebuild(0);
    assert_eq!(last, 2);
    assert_eq!(doc.lines.len(), 3);
    assert_eq!(line_words(&doc.lines[0]), vec!["aa"]);
    assert_eq!(line_words(&doc.lines[1]), vec!["bb", "cc"]);
    assert_eq!(line_words(&doc.lines[2]), vec!["dd"]);
    assert_eq!(doc_words(&doc), vec!["aa", "bb", "cc", "dd"]);
}

#[test]
fn reflow_out_of_range_changes_nothing() {
    let q = Quote::new("t", "ab cd");
    let mut doc = MarkedQuote::new(&q, 8);
    let r = doc.rebuild(7);
    assert_eq!(r, 7);
    assert_eq!(doc.lines.len(), 1);
}

#[test]
fn indented_wrap_shortens_the_first_line() {
    let q = Quote::new("t", "ab cd");
    // without the indent both words share the first line
    let plain = MarkedQuote::new(&q, 8);
    assert_eq!(plain.lines.len(), 1);
    // four columns of indent leave no room for the second word
    let indented = MarkedQuote::new_with_indent(&q, 8, 4);
    assert_eq!(indented.lines.len(), 2);
    assert_eq!(line_words(&indented.lines[0]), vec!["ab"]);
    assert_eq!(line_words(&indented.lines[1]), vec!["cd"]);
}

#[test]
fn config_defaults_match_the_classic_screen() {
    let c = Config::default();
    assert_eq!(c.layout.alignment, 64);
    assert_eq!(c.layout.tab_size, 4);
    assert_eq!(c.layout.text_start_x, 8);
    assert_eq!(c.layout.text_start_y, 4);
    assert_eq!(c.layout.name_x, 4);
    assert_eq!(c.layout.name_y, 2);
    assert_eq!(c.layout.result_offset, 1);
    assert_eq!(c.colors.background, typer::Color::new(0x25, 0x25, 0x25));
    assert_eq!(c.colors.interface, typer::Color::new(0xFE, 0xCE, 0x00));
    assert_eq!(c.colors.correct, typer::Color::new(0xFF, 0xFF, 0xFF));
    assert_eq!(c.colors.untyped, typer::Color::new(0xAE, 0xAD, 0xA4));
    assert_eq!(c.colors.missed, typer::Color::new(0xDC, 0xBF, 0xCF));
    assert_eq!(c.colors.incorrect, typer::Color::new(0xBE, 0x50, 0x46));
}

#[test]
fn color_escape_sequences_are_exact() {
    let c = typer::Color::new(255, 206, 0);
    assert_eq!(c.foreground_ansi(), "\u{1b}[38;2;255;206;0m");
    assert_eq!(c.background_ansi(), "\u{1b}[48;2;255;206;0m");
    let d = typer::Color::new(7, 40, 160);
    assert_eq!(d.foreground_ansi(), "\u{1b}[38;2;7;40;160m");
    assert_eq!(typer::Color::default(), typer::Color::new(0x4C, 0x77, 0xCC));
}

#[test]
fn headroom_holds_for_ordinary_documents() {
    let q = Quote::new("t", "ab cd ef");
    let cfg = config_with_alignment(8);
    let s = typer::session::Session::new(&q, &cfg).unwrap();
    assert!(s.input_headroom());
}
