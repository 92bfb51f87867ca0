use typer::config::{Config, Layout};
use typer::quote::Quote;
use typer::session::{ColorClass, DrawInstruction, ExitStatus, Session};

fn config_with_alignment(alignment: usize) -> Config {
    let mut c = Config::default();
    let mut l = Layout::default();
    l.alignment = alignment;
    c.layout = l;
    c
}

fn fresh_session(source: &str, alignment: usize) -> Session {
    let q = Quote::new("t", source);
    Session::new(&q, &config_with_alignment(alignment)).unwrap()
}

#[test]
fn session_rejects_an_empty_quote() {
    let q = Quote::new("t", "   ");
    assert!(Session::new(&q, &Config::default()).is_none());
}

#[test]
fn session_rejects_a_first_word_wider_than_the_alignment() {
    let q = Quote::new("t", "extraordinarily");
    assert!(Session::new(&q, &config_with_alignment(4)).is_none());
}

#[test]
fn perfect_typing_completes_the_session() {
    // the scenario: words ab, cd, ef at width 8 make one exact line; typing
    // a,b,space,c,d,space,e,f,space ends the session completed
    let mut s = fresh_session("ab cd ef", 8);
    for c in ['a', 'b', ' ', 'c', 'd', ' ', 'e', 'f'] {
        let (_, status) = s.step(c);
        assert!(status.is_none());
    }
    let (_, status) = s.step(' ');
    assert_eq!(status, Some(ExitStatus::Completed));
    assert!(s.done);
}

#[test]
fn the_canonical_script_is_total_chars_plus_word_count_long() {
    let mut s = fresh_session("ab cd ef", 8);
    let script: Vec<char> = vec!['a', 'b', ' ', 'c', 'd', ' ', 'e', 'f', ' '];
    assert_eq!(script.len(), 6 + 3);
    let (_, status, consumed) = s.run_script(&script);
    assert_eq!(status, Some(ExitStatus::Completed));
    assert_eq!(consumed, script.len());
}

#[test]
fn cancel_ends_the_session_at_once_anywhere() {
    let mut s = fresh_session("ab cd", 8);
    let (ops, status) = s.step('\u{1b}');
    assert_eq!(status, Some(ExitStatus::TerminatedByUser));
    assert!(ops.is_empty());

    let mut s2 = fresh_session("ab cd", 8);
    let _ = s2.step('a');
    let _ = s2.step('x');
    let (ops2, status2) = s2.step('\u{1b}');
    assert_eq!(status2, Some(ExitStatus::TerminatedByUser));
    assert!(ops2.is_empty());
    assert!(s2.done);
}

#[test]
fn backspace_at_a_word_start_changes_nothing() {
    let mut s = fresh_session("ab cd", 8);
    let (ops, status) = s.step('\u{7f}');
    assert!(status.is_none());
    assert!(ops.is_empty());
    assert_eq!((s.line_index, s.word_index, s.char_index), (0, 0, 0));
    assert!(s.marked.lines[0].words[0].actual_chars.is_empty());
}

#[test]
fn backspace_withdraws_the_last_typed_character() {
    let mut s = fresh_session("ab cd", 8);
    let _ = s.step('x');
    assert_eq!(s.char_index, 1);
    assert_eq!(s.marked.lines[0].words[0].actual_chars, vec!['x']);
    let (ops, status) = s.step('\u{7f}');
    assert!(status.is_none());
    assert_eq!(s.char_index, 0);
    assert!(s.marked.lines[0].words[0].actual_chars.is_empty());
    assert_eq!(
        ops,
        vec![
            DrawInstruction::MoveLeft { n: 1 },
            DrawInstruction::SetForeground { class: ColorClass::Untyped },
            DrawInstruction::Glyph { c: 'a' },
            DrawInstruction::MoveLeft { n: 1 },
        ]
    );
}

#[test]
fn a_correct_character_paints_its_cell_in_the_scoring_color() {
    let mut s = fresh_session("ab cd", 8);
    let (ops, _) = s.step('a');
    assert_eq!(
        ops,
        vec![
            DrawInstruction::SetForeground { class: ColorClass::Correct },
            DrawInstruction::Glyph { c: 'a' },
        ]
    );
    let (ops2, _) = s.step('x');
    assert_eq!(
        ops2,
        vec![
            DrawInstruction::SetForeground { class: ColorClass::Incorrect },
            DrawInstruction::Glyph { c: 'x' },
        ]
    );
    assert_eq!(s.marked.lines[0].words[0].actual_chars, vec!['a', 'x']);
}

#[test]
fn a_space_reveals_the_missed_remainder_and_advances() {
    let mut s = fresh_session("abc de", 8);
    let _ = s.step('a');
    let (ops, status) = s.step(' ');
    assert!(status.is_none());
    // the untyped "bc" is shown in the missed color, then the gap
    assert_eq!(ops[0], DrawInstruction::SetForeground { class: ColorClass::Missed });
    assert_eq!(ops[1], DrawInstruction::Glyph { c: 'b' });
    assert_eq!(ops[2], DrawInstruction::Glyph { c: 'c' });
    assert!(matches!(ops[3], DrawInstruction::Gap { .. }));
    assert_eq!((s.line_index, s.word_index, s.char_index), (0, 1, 0));
}

#[test]
fn a_space_on_a_line_s_last_word_moves_to_the_next_line() {
    // width 5 puts "ab cd" and "ef" on separate lines
    let mut s = fresh_session("ab cd ef", 5);
    assert_eq!(s.marked.lines.len(), 2);
    for c in ['a', 'b', ' ', 'c', 'd'] {
        let _ = s.step(c);
    }
    let (ops, status) = s.step(' ');
    assert!(status.is_none());
    assert_eq!((s.line_index, s.word_index, s.char_index), (1, 0, 0));
    let n = ops.len();
    assert_eq!(ops[n - 2], DrawInstruction::NewLine);
    assert!(matches!(ops[n - 1], DrawInstruction::MoveRight { .. }));
}

#[test]
fn an_overrun_reflows_and_keeps_the_cursor_on_its_word() {
    // the scenario: "ab" shares a full line with "cd" at width 5; the third
    // character typed into "ab" displaces "cd" onto a new line, and the one
    // reflow's returned range shows as a repaint of both lines
    let mut s = fresh_session("ab cd", 5);
    assert_eq!(s.marked.lines.len(), 1);
    let _ = s.step('a');
    let _ = s.step('b');
    let (ops, status) = s.step('c');
    assert!(status.is_none());
    assert_eq!(s.marked.lines.len(), 2);
    assert_eq!(s.marked.lines[0].words[0].actual_chars, vec!['a', 'b', 'c']);
    assert_eq!(s.marked.lines[1].words[0].chars, vec!['c', 'd']);
    // the cursor still points at "ab", one past its typed text
    assert_eq!((s.line_index, s.word_index, s.char_index), (0, 0, 3));
    // both touched lines were repainted, and the cursor climbed back up over
    // exactly those two rows
    assert!(ops.contains(&DrawInstruction::MoveUp { n: 2 }));
    let newlines = ops
        .iter()
        .filter(|i| matches!(i, DrawInstruction::NewLine))
        .count();
    assert_eq!(newlines, 2);
}

#[test]
fn an_overrun_that_moves_the_cursor_word_re_derives_the_cursor() {
    // "ab" is the last word of its line; overrunning it moves the word itself
    // to the next line and the cursor follows it
    let mut s = fresh_session("cd ab ef", 5);
    assert_eq!(s.marked.lines.len(), 2);
    // skip "cd", then type "ab" and one extra character
    let _ = s.step(' ');
    assert_eq!((s.line_index, s.word_index), (0, 1));
    let _ = s.step('a');
    let _ = s.step('b');
    let (_, status) = s.step('x');
    assert!(status.is_none());
    // "ab" no longer fits beside "cd": it now leads the following line
    assert_eq!((s.line_index, s.word_index, s.char_index), (1, 0, 3));
    assert_eq!(s.marked.lines[1].words[0].chars, vec!['a', 'b']);
    assert_eq!(s.marked.lines[1].words[0].actual_chars, vec!['a', 'b', 'x']);
}

#[test]
fn word_order_survives_any_mixture_of_typing_and_reflow() {
    let mut s = fresh_session("aa bb cc dd ee", 5);
    for c in ['a', 'a', 'x', 'y', ' ', 'b', 'z', ' '] {
        let _ = s.step(c);
    }
    let mut words: Vec<String> = Vec::new();
    for line in &s.marked.lines {
        for w in &line.words {
            words.push(w.chars.iter().collect());
        }
    }
    assert_eq!(words, vec!["aa", "bb", "cc", "dd", "ee"]);
}

#[test]
fn the_stream_running_dry_is_reported_as_input_end() {
    // a session ends on the stream's end: the caller reports it
    let s = fresh_session("ab", 8);
    let ops = s.finish_render(ExitStatus::InputStreamEnd);
    let text: String = ops
        .iter()
        .filter_map(|i| match i {
            DrawInstruction::Glyph { c } => Some(*c),
            _ => None,
        })
        .collect();
    assert_eq!(text, "Input stream end");
}

#[test]
fn the_initial_render_paints_name_text_and_cursor_home() {
    let s = fresh_session("ab cd", 8);
    let ops = s.initial_render("1984");
    assert_eq!(ops[0], DrawInstruction::SetBackground);
    assert_eq!(ops[1], DrawInstruction::Clear);
    assert!(matches!(ops[2], DrawInstruction::SetCursor { .. }));
    assert_eq!(ops[3], DrawInstruction::SetForeground { class: ColorClass::Interface });
    assert_eq!(ops[4], DrawInstruction::Glyph { c: '1' });
    assert_eq!(ops[5], DrawInstruction::Glyph { c: '9' });
    // the stream ends parked on the first cell in the scoring color
    let n = ops.len();
    assert_eq!(ops[n - 1], DrawInstruction::SetForeground { class: ColorClass::Correct });
    assert!(matches!(ops[n - 2], DrawInstruction::SetCursor { .. }));
    // the whole reference text appears, in order
    let glyphs: String = ops
        .iter()
        .filter_map(|i| match i {
            DrawInstruction::Glyph { c } => Some(*c),
            _ => None,
        })
        .collect();
    assert_eq!(glyphs, "1984abcd");
}

#[test]
fn finish_render_reports_each_ending() {
    let s = fresh_session("ab", 8);
    for (st, expect) in [
        (ExitStatus::Completed, "Ok"),
        (ExitStatus::TerminatedByUser, "Terminated by user"),
        (ExitStatus::InputStreamEnd, "Input stream end"),
    ] {
        let ops = s.finish_render(st);
        assert_eq!(ops[1], DrawInstruction::SetForeground { class: ColorClass::Interface });
        let text: String = ops
            .iter()
            .filter_map(|i| match i {
                DrawInstruction::Glyph { c } => Some(*c),
                _ => None,
            })
            .collect();
        assert_eq!(text, expect);
    }
}

#[test]
fn a_script_that_runs_dry_reports_how_much_it_consumed() {
    let mut s = fresh_session("ab cd", 8);
    let script: Vec<char> = vec!['a', 'b'];
    let (_, status, consumed) = s.run_script(&script);
    assert!(status.is_none());
    assert_eq!(consumed, 2);
    assert!(!s.done);
}

#[test]
fn typing_past_an_overlong_word_reflows_in_place() {
    // "widening" cannot fit beside anything at width 9; it sits alone, and
    // overrunning it keeps it alone on its line with the cursor in place
    let mut s = fresh_session("aa widening bb", 9);
    let _ = s.step(' ');
    assert_eq!(s.marked.lines[s.line_index].words[s.word_index].chars.len(), 8);
    for c in ['w', 'i', 'd', 'e', 'n', 'i', 'n', 'g', 'x', 'y'] {
        let (_, status) = s.step(c);
        assert!(status.is_none());
    }
    let w = &s.marked.lines[s.line_index].words[s.word_index];
    assert_eq!(w.actual_chars.len(), 10);
    assert_eq!(w.chars.len(), 8);
    // word order still intact
    let mut words: Vec<String> = Vec::new();
    for line in &s.marked.lines {
        for word in &line.words {
            words.push(word.chars.iter().collect());
        }
    }
    assert_eq!(words, vec!["aa", "widening", "bb"]);
}

#[test]
fn the_canonical_script_completes_a_multi_line_document() {
    let q = Quote::new("t", "one two three four five six");
    let mut c = Config::default();
    let mut l = Layout::default();
    l.alignment = 10;
    c.layout = l;
    let mut s = Session::new(&q, &c).unwrap();
    assert!(s.marked.lines.len() > 1);
    let mut script: Vec<char> = Vec::new();
    for w in &q.words {
        script.extend(w.chars());
        script.push(' ');
    }
    let (_, status, consumed) = s.run_script(&script);
    assert_eq!(status, Some(ExitStatus::Completed));
    assert_eq!(consumed, script.len());
    // total characters plus one space per word
    let total: usize = q.words.iter().map(|w| w.chars().count()).sum();
    assert_eq!(consumed, total + q.words.len());
}

#[test]
fn backspace_after_an_overrun_erases_the_extra_cell() {
    let mut s = fresh_session("ab cd", 5);
    for c in ['a', 'b', 'c'] {
        let _ = s.step(c);
    }
    assert_eq!(s.char_index, 3);
    let (ops, _) = s.step('\u{7f}');
    assert_eq!(s.char_index, 2);
    assert_eq!(s.marked.lines[0].words[0].actual_chars, vec!['a', 'b']);
    // the erased cell lies past the expected text, so a blank restores it
    assert_eq!(ops[2], DrawInstruction::Glyph { c: ' ' });
}
