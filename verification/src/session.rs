//! The typing session: a state machine that consumes one character at a time,
//! scores it against the reference text, and emits the draw instructions that
//! repaint exactly what changed.

use vstd::prelude::*;

use crate::config::{Config, Layout};
use crate::quote::Quote;
use crate::tui::{
    content_cost, content_width, doc_content, doc_words, line_content, line_is_balanced,
    lines_content, lemma_balanced_padding_bound, lemma_lines_content_concat,
    lemma_lines_content_push, lemma_lines_content_singleton, lemma_widths_sum_push, widths_sum,
    word_content, MarkedLine, MarkedQuote,
};

verus! {

/// Why a session ended.
#[derive(Copy, Clone, PartialEq, Eq, Structural, Debug)]
pub enum ExitStatus {
    Completed,
    TerminatedByUser,
    InputStreamEnd,
}

/// The scoring category, or interface role, whose configured color an
/// instruction selects.
#[derive(Copy, Clone, PartialEq, Eq, Structural, Debug)]
pub enum ColorClass {
    Correct,
    Incorrect,
    Missed,
    Untyped,
    Interface,
}

/// One drawing step. The renderer is stateful: instructions must be performed
/// in order, each relative move counted from where the previous one ended.
#[derive(Copy, Clone, PartialEq, Eq, Structural, Debug)]
pub enum DrawInstruction {
    /// Clear the whole screen.
    Clear,
    /// Place the cursor at column `x`, row `y` (one-based terminal cells).
    SetCursor { x: usize, y: usize },
    /// Move the cursor up `n` rows; nothing when `n` is zero.
    MoveUp { n: usize },
    /// Move the cursor left `n` columns; nothing when `n` is zero.
    MoveLeft { n: usize },
    /// Move the cursor right `n` columns; nothing when `n` is zero.
    MoveRight { n: usize },
    /// Move to the start of the next row.
    NewLine,
    /// Move to the start of the current row.
    CarriageReturn,
    /// Select the configured foreground color of `class`.
    SetForeground { class: ColorClass },
    /// Select the configured background color.
    SetBackground,
    /// Print one character at the cursor.
    Glyph { c: char },
    /// Print the gap that follows a word: `padding` extra spaces and the one
    /// mandatory separator.
    Gap { padding: usize },
}

/// An interactive typing session over a justified document.
pub struct Session {
    pub marked: MarkedQuote,
    pub layout: Layout,
    pub line_index: usize,
    pub word_index: usize,
    pub char_index: usize,
    pub done: bool,
}

/// The cancel key: ends the session at once.
pub open spec fn cancel_key() -> char {
    '\u{1b}'
}

/// The backspace key.
pub open spec fn backspace_key() -> char {
    '\u{7f}'
}

/// The document shapes the session can work on: at least one line, no empty
/// line, and no padding beyond what one balance pass can assign.
pub open spec fn doc_wf(d: MarkedQuote) -> bool {
    &&& d.alignment <= usize::MAX / 2
    &&& d.lines@.len() >= 1
    &&& forall|i: int| 0 <= i < d.lines@.len() ==> (#[trigger] d.lines@[i]).words@.len() >= 1
    &&& forall|i: int, k: int|
        0 <= i < d.lines@.len() && 0 <= k < d.lines@[i].words@.len()
            ==> (#[trigger] d.lines@[i].words@[k]).padding <= d.alignment + 1
}

/// The number of words that precede the cursor position `(li, wi)` in
/// reading order.
pub open spec fn flat_position(d: MarkedQuote, li: int, wi: int) -> int {
    lines_content(d.lines@.subrange(0, li)).len() + wi
}

/// The word under the cursor of an active session.
pub open spec fn cursor_word(s: Session) -> crate::tui::MarkedWord {
    s.marked.lines@[s.line_index as int].words@[s.word_index as int]
}

/// How many words of the document precede the cursor's word.
pub open spec fn cursor_flat(s: Session) -> int {
    flat_position(s.marked, s.line_index as int, s.word_index as int)
}

/// A session whose cursor points at a real word, with the typed prefix of
/// that word exactly `char_index` long and every word past the cursor still
/// untyped.
pub open spec fn session_wf(s: Session) -> bool {
    &&& doc_wf(s.marked)
    &&& !s.done ==> {
        &&& s.line_index < s.marked.lines@.len()
        &&& s.word_index < s.marked.lines@[s.line_index as int].words@.len()
        &&& s.char_index == cursor_word(s).actual_chars@.len()
        &&& forall|t: int|
            cursor_flat(s) < t < doc_content(s.marked).len() ==> (#[trigger] doc_content(
                s.marked,
            )[t]).1 == Seq::<char>::empty()
    }
}

/// Word counts of line prefixes grow line by line.
proof fn lemma_flat_count_step(d: MarkedQuote, li: int)
    requires
        0 <= li < d.lines@.len(),
    ensures
        lines_content(d.lines@.subrange(0, li + 1)).len() == lines_content(
            d.lines@.subrange(0, li),
        ).len() + d.lines@[li].words@.len(),
{
    assert(d.lines@.subrange(0, li + 1) =~= d.lines@.subrange(0, li).push(d.lines@[li]));
    lemma_lines_content_push(d.lines@.subrange(0, li), d.lines@[li]);
}

/// The words before line `li` are never more than the whole document.
proof fn lemma_flat_count_bound(d: MarkedQuote, li: int)
    requires
        0 <= li <= d.lines@.len(),
    ensures
        lines_content(d.lines@.subrange(0, li)).len() + lines_content(
            d.lines@.subrange(li, d.lines@.len() as int),
        ).len() == doc_content(d).len(),
{
    assert(d.lines@ =~= d.lines@.subrange(0, li) + d.lines@.subrange(li, d.lines@.len() as int));
    lemma_lines_content_concat(
        d.lines@.subrange(0, li),
        d.lines@.subrange(li, d.lines@.len() as int),
    );
}

impl Session {
    /// Starts a session on `quote`, wrapped to the configured width, with the
    /// cursor on the first character of the first word. Yields nothing when
    /// the quote has no words, or when its first word cannot fit a line by
    /// itself, since the cursor would then have nowhere to stand.
    pub fn new(quote: &Quote, config: &Config) -> (r: Option<Session>)
        requires
            config.layout.alignment <= usize::MAX / 2,
        ensures
            r is Some <==> (quote.words@.len() > 0 && quote.words@[0]@.len()
                <= config.layout.alignment),
            r is Some ==> session_wf(r->Some_0),
            r is Some ==> !r->Some_0.done,
            r is Some ==> r->Some_0.line_index == 0 && r->Some_0.word_index == 0
                && r->Some_0.char_index == 0,
            r is Some ==> doc_words(r->Some_0.marked) == crate::quote::words_view(quote),
            r is Some ==> doc_content(r->Some_0.marked) == crate::tui::fresh_content(
                crate::quote::words_view(quote),
            ),
            r is Some ==> r->Some_0.marked.alignment == config.layout.alignment,
            r is Some ==> r->Some_0.layout == config.layout,
            r is Some ==> forall|i: int|
                0 <= i < r->Some_0.marked.lines@.len() ==> line_is_balanced(
                    #[trigger] r->Some_0.marked.lines@[i],
                    config.layout.alignment as nat,
                ),
    {
        if quote.words.len() == 0 {
            return None;
        }
        let first_chars = crate::text::str_chars(quote.words[0].as_str());
        if first_chars.len() > config.layout.alignment {
            proof {
                assert(crate::quote::words_view(quote)[0] == quote.words@[0]@);
            }
            return None;
        }
        let marked = MarkedQuote::new(quote, config.layout.alignment);
        proof {
            assert(crate::quote::words_view(quote)[0] == quote.words@[0]@);
            assert(marked.lines@[0].words@.len() >= 1);
            assert forall|i: int, k: int|
                0 <= i < marked.lines@.len() && 0 <= k < marked.lines@[i].words@.len() implies (
            #[trigger] marked.lines@[i].words@[k]).padding <= marked.alignment + 1 by {
                lemma_balanced_padding_bound(marked.lines@[i], marked.alignment as nat);
            }
            assert(marked.lines@[0].words@[0].actual_chars@.len() == 0) by {
                assert(line_content(marked.lines@[0])[0] == doc_content(marked)[0]) by {
                    lemma_flat_count_bound(marked, 1);
                    assert(marked.lines@.subrange(0, 1) =~= seq![marked.lines@[0]]);
                    lemma_lines_content_singleton(marked.lines@[0]);
                    assert(marked.lines@ =~= seq![marked.lines@[0]] + marked.lines@.subrange(
                        1,
                        marked.lines@.len() as int,
                    ));
                    lemma_lines_content_concat(
                        seq![marked.lines@[0]],
                        marked.lines@.subrange(1, marked.lines@.len() as int),
                    );
                }
                assert(doc_content(marked)[0].1 =~= Seq::<char>::empty());
            }
            assert(lines_content(marked.lines@.subrange(0, 0)).len() == 0) by {
                assert(marked.lines@.subrange(0, 0) =~= Seq::<crate::tui::MarkedLine>::empty());
                assert(Seq::<crate::tui::MarkedLine>::empty().map_values(
                    |x: crate::tui::MarkedLine| line_content(x),
                ) =~= Seq::<Seq<(Seq<char>, Seq<char>)>>::empty());
            }
            assert(forall|t: int|
                0 <= t < doc_content(marked).len() ==> (#[trigger] doc_content(marked)[t]).1
                    == Seq::<char>::empty());
        }
        Some(
            Session {
                marked,
                layout: config.layout,
                line_index: 0,
                word_index: 0,
                char_index: 0,
                done: false,
            },
        )
    }
}

/// The word at cursor position `(li, wi)` is the document word with
/// `flat_position` words before it.
proof fn lemma_flat_index(d: MarkedQuote, li: int, wi: int)
    requires
        0 <= li < d.lines@.len(),
        0 <= wi < d.lines@[li].words@.len(),
    ensures
        0 <= flat_position(d, li, wi) < doc_content(d).len(),
        line_content(d.lines@[li])[wi] == doc_content(d)[flat_position(d, li, wi)],
{
    let n = d.lines@.len() as int;
    assert(d.lines@ =~= d.lines@.subrange(0, li) + seq![d.lines@[li]] + d.lines@.subrange(
        li + 1,
        n,
    ));
    lemma_lines_content_concat(
        d.lines@.subrange(0, li) + seq![d.lines@[li]],
        d.lines@.subrange(li + 1, n),
    );
    lemma_lines_content_concat(d.lines@.subrange(0, li), seq![d.lines@[li]]);
    lemma_lines_content_singleton(d.lines@[li]);
}

/// Longer line prefixes hold at least as many words.
proof fn lemma_flat_count_mono(d: MarkedQuote, a: int, b: int)
    requires
        0 <= a <= b <= d.lines@.len(),
    ensures
        lines_content(d.lines@.subrange(0, a)).len() <= lines_content(
            d.lines@.subrange(0, b),
        ).len(),
{
    assert(d.lines@.subrange(0, b) =~= d.lines@.subrange(0, a) + d.lines@.subrange(a, b));
    lemma_lines_content_concat(d.lines@.subrange(0, a), d.lines@.subrange(a, b));
}

/// Replacing one word of one line updates the flattened document at exactly
/// that word's flat position.
proof fn lemma_lines_content_word_update(
    ls: Seq<crate::tui::MarkedLine>,
    li: int,
    l2: crate::tui::MarkedLine,
    wi: int,
    wc: (Seq<char>, Seq<char>),
)
    requires
        0 <= li < ls.len(),
        0 <= wi < ls[li].words@.len(),
        line_content(l2) == line_content(ls[li]).update(wi, wc),
    ensures
        lines_content(ls.update(li, l2)) == lines_content(ls).update(
            lines_content(ls.subrange(0, li)).len() + wi,
            wc,
        ),
{
    let n = ls.len() as int;
    let u = ls.update(li, l2);
    assert(u =~= ls.subrange(0, li) + seq![l2] + ls.subrange(li + 1, n));
    assert(ls =~= ls.subrange(0, li) + seq![ls[li]] + ls.subrange(li + 1, n));
    lemma_lines_content_concat(ls.subrange(0, li) + seq![l2], ls.subrange(li + 1, n));
    lemma_lines_content_concat(ls.subrange(0, li), seq![l2]);
    lemma_lines_content_singleton(l2);
    lemma_lines_content_concat(ls.subrange(0, li) + seq![ls[li]], ls.subrange(li + 1, n));
    lemma_lines_content_concat(ls.subrange(0, li), seq![ls[li]]);
    lemma_lines_content_singleton(ls[li]);
    assert(lines_content(u) =~= lines_content(ls).update(
        lines_content(ls.subrange(0, li)).len() + wi,
        wc,
    ));
}

/// Replacing one word changes the width sum by the difference of the two
/// cell widths.
proof fn lemma_widths_sum_update(s: Seq<(Seq<char>, Seq<char>)>, g: int, wc: (Seq<char>, Seq<char>))
    requires
        0 <= g < s.len(),
    ensures
        crate::tui::widths_sum(s.update(g, wc)) + content_width(s[g]) == crate::tui::widths_sum(s)
            + content_width(wc),
{
    let n = s.len() as int;
    let u = s.update(g, wc);
    assert(u =~= s.subrange(0, g) + seq![wc] + s.subrange(g + 1, n));
    assert(s =~= s.subrange(0, g) + seq![s[g]] + s.subrange(g + 1, n));
    crate::tui::lemma_widths_sum_concat(s.subrange(0, g) + seq![wc], s.subrange(g + 1, n));
    crate::tui::lemma_widths_sum_concat(s.subrange(0, g), seq![wc]);
    crate::tui::lemma_widths_sum_concat(s.subrange(0, g) + seq![s[g]], s.subrange(g + 1, n));
    crate::tui::lemma_widths_sum_concat(s.subrange(0, g), seq![s[g]]);
    assert(crate::tui::widths_sum(seq![wc]) == content_width(wc)) by {
        assert(crate::tui::widths_sum(Seq::<(Seq<char>, Seq<char>)>::empty()) == 0);
        assert(seq![wc].drop_first() =~= Seq::<(Seq<char>, Seq<char>)>::empty());
    }
    assert(crate::tui::widths_sum(seq![s[g]]) == content_width(s[g])) by {
        assert(crate::tui::widths_sum(Seq::<(Seq<char>, Seq<char>)>::empty()) == 0);
        assert(seq![s[g]].drop_first() =~= Seq::<(Seq<char>, Seq<char>)>::empty());
    }
}

/// No single cell is wider than the whole width sum.
proof fn lemma_width_le_sum(s: Seq<(Seq<char>, Seq<char>)>, g: int)
    requires
        0 <= g < s.len(),
    ensures
        content_width(s[g]) <= crate::tui::widths_sum(s),
    decreases s.len(),
{
    if g == 0 {
        assert(content_width(s[0]) <= crate::tui::widths_sum(s));
    } else {
        lemma_width_le_sum(s.drop_first(), g - 1);
        assert(s.drop_first()[g - 1] == s[g]);
    }
}

/// A range repaint grows one line at a time at its bottom edge.
proof fn lemma_lines_paint_snoc(ls: Seq<crate::tui::MarkedLine>, from: int, to: int, start_x: usize)
    requires
        from <= to,
    ensures
        lines_paint(ls, from, to, start_x) == lines_paint(ls, from, to - 1, start_x) + line_paint(
            ls[to],
            start_x,
        ),
    decreases to - from,
{
    if from == to {
        assert(lines_paint(ls, from, to - 1, start_x) =~= Seq::<DrawInstruction>::empty());
        assert(lines_paint(ls, from + 1, to, start_x) =~= Seq::<DrawInstruction>::empty());
        assert(lines_paint(ls, from, to, start_x) =~= lines_paint(ls, from, to - 1, start_x)
            + line_paint(ls[to], start_x));
    } else {
        lemma_lines_paint_snoc(ls, from + 1, to, start_x);
        assert(line_paint(ls[from], start_x) + (lines_paint(ls, from + 1, to - 1, start_x)
            + line_paint(ls[to], start_x)) =~= (line_paint(ls[from], start_x) + lines_paint(
            ls,
            from + 1,
            to - 1,
            start_x,
        )) + line_paint(ls[to], start_x));
    }
}

/// The number of words before the word at `(li, wi)`, counted.
fn flat_index(d: &MarkedQuote, li: usize, wi: usize) -> (g: usize)
    requires
        li < d.lines@.len(),
        wi < d.lines@[li as int].words@.len(),
        doc_content(*d).len() <= usize::MAX,
    ensures
        g == flat_position(*d, li as int, wi as int),
        g < doc_content(*d).len(),
{
    let mut acc: usize = 0;
    let mut k: usize = 0;
    proof {
        assert(d.lines@.subrange(0, 0) =~= Seq::<crate::tui::MarkedLine>::empty());
        assert(Seq::<crate::tui::MarkedLine>::empty().map_values(
            |x: crate::tui::MarkedLine| line_content(x),
        ) =~= Seq::<Seq<(Seq<char>, Seq<char>)>>::empty());
        assert(lines_content(d.lines@.subrange(0, 0)).len() == 0);
    }
    while k < li
        invariant
            k <= li,
            li < d.lines@.len(),
            wi < d.lines@[li as int].words@.len(),
            doc_content(*d).len() <= usize::MAX,
            acc == lines_content(d.lines@.subrange(0, k as int)).len(),
        decreases li - k,
    {
        let cnt = d.lines[k].words.len();
        proof {
            lemma_flat_count_step(*d, k as int);
            assert(line_content(d.lines@[k as int]).len() == cnt);
            lemma_flat_count_mono(*d, k as int + 1, li as int + 1);
            lemma_flat_index(*d, li as int, wi as int);
            lemma_flat_count_bound(*d, li as int + 1);
        }
        acc = acc + cnt;
        k = k + 1;
    }
    proof {
        lemma_flat_index(*d, li as int, wi as int);
    }
    acc + wi
}

/// The scoring category of cell `i` of a word with content `c`: typed cells
/// score against the expected character, cells past the typed prefix are
/// untyped, and typed cells past the end of the expected text are overrun.
pub open spec fn cell_class(c: (Seq<char>, Seq<char>), i: int) -> ColorClass {
    if i < c.1.len() && i < c.0.len() {
        if c.1[i] == c.0[i] {
            ColorClass::Correct
        } else {
            ColorClass::Incorrect
        }
    } else if i >= c.1.len() {
        ColorClass::Untyped
    } else {
        ColorClass::Missed
    }
}

/// The character shown in cell `i`: what was typed there, else what is
/// expected there.
pub open spec fn cell_glyph(c: (Seq<char>, Seq<char>), i: int) -> char {
    if i < c.1.len() {
        c.1[i]
    } else {
        c.0[i]
    }
}

/// The instructions that paint the first `k` cells of a word.
pub open spec fn word_cells(c: (Seq<char>, Seq<char>), k: int) -> Seq<DrawInstruction>
    decreases k,
{
    if k <= 0 {
        Seq::empty()
    } else {
        word_cells(c, k - 1) + seq![
            DrawInstruction::SetForeground { class: cell_class(c, k - 1) },
            DrawInstruction::Glyph { c: cell_glyph(c, k - 1) },
        ]
    }
}

/// The instructions that paint one whole word and the gap after it.
pub open spec fn word_paint(w: crate::tui::MarkedWord) -> Seq<DrawInstruction> {
    word_cells(word_content(w), content_width(word_content(w)) as int) + seq![
        DrawInstruction::Gap { padding: w.padding },
    ]
}

/// The instructions that paint the first `k` words of a line.
pub open spec fn words_paint(ws: Seq<crate::tui::MarkedWord>, k: int) -> Seq<DrawInstruction>
    decreases k,
{
    if k <= 0 {
        Seq::empty()
    } else {
        words_paint(ws, k - 1) + word_paint(ws[k - 1])
    }
}

/// One full line repaint: return to the text column, paint every word, step
/// to the next row.
pub open spec fn line_paint(l: crate::tui::MarkedLine, start_x: usize) -> Seq<DrawInstruction> {
    seq![DrawInstruction::CarriageReturn, DrawInstruction::MoveRight { n: start_x }]
        + words_paint(l.words@, l.words@.len() as int) + seq![DrawInstruction::NewLine]
}

/// The repaint of lines `from..=to`, top to bottom.
pub open spec fn lines_paint(
    ls: Seq<crate::tui::MarkedLine>,
    from: int,
    to: int,
    start_x: usize,
) -> Seq<DrawInstruction>
    decreases to - from + 1,
{
    if from > to {
        Seq::empty()
    } else {
        line_paint(ls[from], start_x) + lines_paint(ls, from + 1, to, start_x)
    }
}

/// The moves that walk the cursor right over the first `wi` word cells of a
/// line: one move per word, its cell width plus its gap.
pub open spec fn cursor_walk(ws: Seq<crate::tui::MarkedWord>, wi: int) -> Seq<DrawInstruction>
    decreases wi,
{
    if wi <= 0 {
        Seq::empty()
    } else {
        cursor_walk(ws, wi - 1) + seq![
            DrawInstruction::MoveRight {
                n: (content_width(word_content(ws[wi - 1])) + ws[wi - 1].padding + 1) as usize,
            },
        ]
    }
}

/// The glyphs of `cs[from..k]`, printed in order.
pub open spec fn glyph_span(cs: Seq<char>, from: int, k: int) -> Seq<DrawInstruction>
    decreases k - from,
{
    if k <= from {
        Seq::empty()
    } else {
        glyph_span(cs, from, k - 1) + seq![DrawInstruction::Glyph { c: cs[k - 1] }]
    }
}

/// What a space draws: the missed remainder of the word when any expected
/// characters were never typed, the gap after the word, and the line break
/// when the cursor moves to the next line.
pub open spec fn space_paint(
    w: crate::tui::MarkedWord,
    ci: int,
    to_next_line: bool,
    start_x: usize,
) -> Seq<DrawInstruction> {
    let missed = if ci < w.chars@.len() {
        seq![DrawInstruction::SetForeground { class: ColorClass::Missed }] + glyph_span(
            w.chars@,
            ci,
            w.chars@.len() as int,
        )
    } else {
        Seq::empty()
    };
    let brk = if to_next_line {
        seq![DrawInstruction::NewLine, DrawInstruction::MoveRight { n: start_x }]
    } else {
        Seq::empty()
    };
    missed + seq![DrawInstruction::Gap { padding: w.padding }] + brk
}

/// What a backspace draws: step left, restore the cell to its untyped look,
/// step back left.
pub open spec fn backspace_paint(w: crate::tui::MarkedWord, ci: int) -> Seq<DrawInstruction> {
    seq![
        DrawInstruction::MoveLeft { n: 1 },
        DrawInstruction::SetForeground { class: ColorClass::Untyped },
        DrawInstruction::Glyph {
            c: if ci - 1 < w.chars@.len() {
                w.chars@[ci - 1]
            } else {
                ' '
            },
        },
        DrawInstruction::MoveLeft { n: 1 },
    ]
}

/// What an overflow draws: repaint every touched line top to bottom, return
/// to the text column, climb back to the cursor's line, and walk right to the
/// typing position.
pub open spec fn overflow_paint(
    d: MarkedQuote,
    from: int,
    to: int,
    li: int,
    wi: int,
    ci: int,
    start_x: usize,
) -> Seq<DrawInstruction> {
    lines_paint(d.lines@, from, to, start_x) + seq![
        DrawInstruction::CarriageReturn,
        DrawInstruction::MoveRight { n: start_x },
        DrawInstruction::MoveUp { n: (to + 1 - li) as usize },
    ] + cursor_walk(d.lines@[li].words@, wi) + seq![DrawInstruction::MoveRight { n: ci as usize }]
}

/// Appends the cell-by-cell paint of `w` and its trailing gap.
fn paint_word(out: &mut Vec<DrawInstruction>, w: &crate::tui::MarkedWord)
    ensures
        final(out)@ == old(out)@ + word_paint(*w),
{
    let ghost c = word_content(*w);
    let width = if w.chars.len() >= w.actual_chars.len() {
        w.chars.len()
    } else {
        w.actual_chars.len()
    };
    let mut i: usize = 0;
    proof {
        assert(out@ =~= old(out)@ + word_cells(c, 0));
    }
    while i < width
        invariant
            i <= width,
            width == content_width(c),
            c == word_content(*w),
            out@ == old(out)@ + word_cells(c, i as int),
        decreases width - i,
    {
        let glyph = if i < w.actual_chars.len() {
            w.actual_chars[i]
        } else {
            w.chars[i]
        };
        let class = if i < w.actual_chars.len() && i < w.chars.len() {
            if w.actual_chars[i] == w.chars[i] {
                ColorClass::Correct
            } else {
                ColorClass::Incorrect
            }
        } else if i >= w.actual_chars.len() {
            ColorClass::Untyped
        } else {
            ColorClass::Missed
        };
        out.push(DrawInstruction::SetForeground { class });
        out.push(DrawInstruction::Glyph { c: glyph });
        i = i + 1;
        proof {
            assert(glyph == cell_glyph(c, i - 1));
            assert(class == cell_class(c, i - 1));
            assert(out@ =~= old(out)@ + word_cells(c, i as int));
        }
    }
    out.push(DrawInstruction::Gap { padding: w.padding });
    proof {
        assert(out@ =~= old(out)@ + word_paint(*w));
    }
}

/// Appends the full repaint of one line.
fn paint_line(out: &mut Vec<DrawInstruction>, l: &crate::tui::MarkedLine, start_x: usize)
    ensures
        final(out)@ == old(out)@ + line_paint(*l, start_x),
{
    out.push(DrawInstruction::CarriageReturn);
    out.push(DrawInstruction::MoveRight { n: start_x });
    let n = l.words.len();
    let mut k: usize = 0;
    proof {
        assert(out@ =~= old(out)@ + seq![
            DrawInstruction::CarriageReturn,
            DrawInstruction::MoveRight { n: start_x },
        ] + words_paint(l.words@, 0));
    }
    while k < n
        invariant
            k <= n,
            n == l.words@.len(),
            out@ == old(out)@ + seq![
                DrawInstruction::CarriageReturn,
                DrawInstruction::MoveRight { n: start_x },
            ] + words_paint(l.words@, k as int),
        decreases n - k,
    {
        paint_word(out, &l.words[k]);
        k = k + 1;
        proof {
            assert(out@ =~= old(out)@ + seq![
                DrawInstruction::CarriageReturn,
                DrawInstruction::MoveRight { n: start_x },
            ] + words_paint(l.words@, k as int));
        }
    }
    out.push(DrawInstruction::NewLine);
    proof {
        assert(out@ =~= old(out)@ + line_paint(*l, start_x));
    }
}

/// Finds the line and word index of the word with `g` words before it.
fn locate(d: &MarkedQuote, g: usize) -> (pos: (usize, usize))
    requires
        g < doc_content(*d).len(),
    ensures
        pos.0 < d.lines@.len(),
        pos.1 < d.lines@[pos.0 as int].words@.len(),
        flat_position(*d, pos.0 as int, pos.1 as int) == g,
{
    let nlines = d.lines.len();
    let mut li: usize = 0;
    let mut acc: usize = 0;
    proof {
        assert(d.lines@.subrange(0, 0) =~= Seq::<crate::tui::MarkedLine>::empty());
        assert(Seq::<crate::tui::MarkedLine>::empty().map_values(
            |x: crate::tui::MarkedLine| line_content(x),
        ) =~= Seq::<Seq<(Seq<char>, Seq<char>)>>::empty());
        assert(lines_content(d.lines@.subrange(0, 0)).len() == 0);
        lemma_flat_count_bound(*d, 0);
    }
    loop
        invariant
            nlines == d.lines@.len(),
            li <= nlines,
            acc == lines_content(d.lines@.subrange(0, li as int)).len(),
            acc <= g,
            g < doc_content(*d).len(),
            lines_content(d.lines@.subrange(0, li as int)).len() + lines_content(
                d.lines@.subrange(li as int, d.lines@.len() as int),
            ).len() == doc_content(*d).len(),
        decreases d.lines@.len() - li,
    {
        proof {
            if li == d.lines@.len() {
                assert(d.lines@.subrange(li as int, d.lines@.len() as int) =~= Seq::<
                    crate::tui::MarkedLine,
                >::empty());
                assert(Seq::<crate::tui::MarkedLine>::empty().map_values(
                    |x: crate::tui::MarkedLine| line_content(x),
                ) =~= Seq::<Seq<(Seq<char>, Seq<char>)>>::empty());
                assert(lines_content(d.lines@.subrange(li as int, d.lines@.len() as int)).len()
                    == 0);
                assert(false);
            }
        }
        let cnt = d.lines[li].words.len();
        proof {
            lemma_flat_count_step(*d, li as int);
            assert(line_content(d.lines@[li as int]).len() == cnt);
        }
        if g - acc < cnt {
            return (li, g - acc);
        }
        proof {
            lemma_flat_count_bound(*d, li as int + 1);
        }
        acc = acc + cnt;
        li = li + 1;
    }
}
/// Typing changes only what was typed: replacing a word's typed text leaves
/// the expected texts of the document untouched.
proof fn lemma_words_unchanged_by_typing(
    a: Seq<(Seq<char>, Seq<char>)>,
    g: int,
    actual: Seq<char>,
)
    requires
        0 <= g < a.len(),
    ensures
        a.update(g, (a[g].0, actual)).map_values(|c: (Seq<char>, Seq<char>)| c.0) == a.map_values(
            |c: (Seq<char>, Seq<char>)| c.0,
        ),
{
    assert(a.update(g, (a[g].0, actual)).map_values(|c: (Seq<char>, Seq<char>)| c.0)
        =~= a.map_values(|c: (Seq<char>, Seq<char>)| c.0));
}

/// A plain copy of one character.
fn copy_char(c: &char) -> (r: char)
    ensures
        r == c,
{
    *c
}

impl Session {
    /// Withdraws the last typed character of the current word; at a word's
    /// start nothing happens at all.
    fn do_backspace(&mut self) -> (out: Vec<DrawInstruction>)
        requires
            session_wf(*old(self)),
            !old(self).done,
        ensures
            session_wf(*final(self)),
            !final(self).done,
            final(self).layout == old(self).layout,
            final(self).marked.alignment == old(self).marked.alignment,
            content_cost(doc_content(final(self).marked)) <= content_cost(
                doc_content(old(self).marked),
            ),
            old(self).char_index == 0 ==> (*final(self) == *old(self) && out@ == Seq::<
                DrawInstruction,
            >::empty()),
            old(self).char_index > 0 ==> (final(self).line_index == old(self).line_index && final(self).word_index == old(self).word_index && final(self).char_index == old(self).char_index
                - 1),
            old(self).char_index > 0 ==> (final(self).marked.lines@.len() == old(self).marked.lines@.len() && (forall|j: int|
                0 <= j < old(self).marked.lines@.len() && j != old(self).line_index ==> final(self).marked.lines@[j] == old(self).marked.lines@[j])),
            old(self).char_index > 0 ==> crate::tui::line_view(
                final(self).marked.lines@[old(self).line_index as int],
            ) == crate::tui::line_view(old(self).marked.lines@[old(self).line_index as int]).update(
                old(self).word_index as int,
                (
                    cursor_word(*old(self)).chars@,
                    cursor_word(*old(self)).actual_chars@.drop_last(),
                    cursor_word(*old(self)).padding as nat,
                ),
            ),
            old(self).char_index > 0 ==> doc_content(final(self).marked) == doc_content(
                old(self).marked,
            ).update(
                cursor_flat(*old(self)),
                (cursor_word(*old(self)).chars@, cursor_word(*old(self)).actual_chars@.drop_last()),
            ),
            old(self).char_index > 0 ==> out@ == backspace_paint(
                cursor_word(*old(self)),
                old(self).char_index as int,
            ),
    {
        let mut ops: Vec<DrawInstruction> = Vec::new();
        let li = self.line_index;
        let wi = self.word_index;
        let ci = self.char_index;
        let ghost w_old = cursor_word(*old(self));
        if ci == 0 {
            return ops;
        }
        let ghost old_lines = self.marked.lines@;
        let ghost old_doc = self.marked;
        let expected_len = self.marked.lines[li].words[wi].chars.len();
        let glyph = if ci - 1 < expected_len {
            copy_char(&self.marked.lines[li].words[wi].chars[ci - 1])
        } else {
            ' '
        };
        ops.push(DrawInstruction::MoveLeft { n: 1 });
        ops.push(DrawInstruction::SetForeground { class: ColorClass::Untyped });
        ops.push(DrawInstruction::Glyph { c: glyph });
        ops.push(DrawInstruction::MoveLeft { n: 1 });
        proof {
            assert(ops@.len() == 4);
        }
        let _popped = self.marked.lines[li].words[wi].actual_chars.pop();
        self.char_index = ci - 1;
        proof {
            assert(ops@.len() == 4);
        }
        proof {
            let lid = li as int;
            let wid = wi as int;
            let l2 = self.marked.lines@[lid];
            let w2 = l2.words@[wid];
            let wc2 = (w_old.chars@, w_old.actual_chars@.drop_last());
            assert(w2.actual_chars@ == w_old.actual_chars@.drop_last());
            assert(self.marked.lines@ =~= old_lines.update(lid, l2));
            assert(l2.words@ =~= old_lines[lid].words@.update(wid, w2));
            assert(line_content(l2) =~= line_content(old_lines[lid]).update(wid, wc2));
            lemma_lines_content_word_update(old_lines, lid, l2, wid, wc2);
            assert(crate::tui::line_view(l2) =~= crate::tui::line_view(old_lines[lid]).update(
                wid,
                (w_old.chars@, w_old.actual_chars@.drop_last(), w_old.padding as nat),
            ));
            lemma_flat_index(old_doc, lid, wid);
            assert(self.marked.lines@.subrange(0, lid) =~= old_lines.subrange(0, lid));
            lemma_widths_sum_update(doc_content(old_doc), cursor_flat(*old(self)), wc2);
            assert(ops@ =~= backspace_paint(w_old, ci as int));
        }
        ops
    }

    /// Scores the untyped remainder of the current word as missed and
    /// advances the cursor: to the next word, to the next line's first word,
    /// or to the end of the session after the last word.
    #[verifier::loop_isolation(false)]
    fn do_space(&mut self) -> (r: (Vec<DrawInstruction>, Option<ExitStatus>))
        requires
            session_wf(*old(self)),
            !old(self).done,
        ensures
            session_wf(*final(self)),
            final(self).layout == old(self).layout,
            final(self).marked == old(self).marked,
            final(self).done <==> r.1 is Some,
            (old(self).word_index + 1 < old(self).marked.lines@[old(self).line_index as int].words@.len()) ==> (r.1 is None && final(self).line_index == old(self).line_index && final(self).word_index == old(self).word_index + 1 && final(self).char_index == 0),
            (old(self).word_index + 1 == old(self).marked.lines@[old(self).line_index as int].words@.len() && old(self).line_index + 1 < old(self).marked.lines@.len()) ==> (r.1 is None && final(self).line_index == old(self).line_index + 1 && final(self).word_index == 0 && final(self).char_index == 0),
            (old(self).word_index + 1 == old(self).marked.lines@[old(self).line_index as int].words@.len() && old(self).line_index + 1 == old(self).marked.lines@.len()) ==> r.1 == Some(ExitStatus::Completed),
            r.0@ == space_paint(
                cursor_word(*old(self)),
                old(self).char_index as int,
                old(self).word_index + 1 == old(self).marked.lines@[old(self).line_index as int].words@.len() && old(self).line_index + 1 < old(self).marked.lines@.len(),
                old(self).layout.text_start_x,
            ),
    {
        let mut ops: Vec<DrawInstruction> = Vec::new();
        let li = self.line_index;
        let wi = self.word_index;
        let ci = self.char_index;
        let ghost w_old = cursor_word(*old(self));
        let ghost sx = self.layout.text_start_x;
        let expected_len = self.marked.lines[li].words[wi].chars.len();
        if ci < expected_len {
            ops.push(DrawInstruction::SetForeground { class: ColorClass::Missed });
            let mut k: usize = ci;
            proof {
                assert(ops@ =~= seq![DrawInstruction::SetForeground { class: ColorClass::Missed }]
                    + glyph_span(w_old.chars@, ci as int, ci as int));
            }
            while k < expected_len
                invariant
                    ci <= k <= expected_len,
                    ops@ == seq![DrawInstruction::SetForeground { class: ColorClass::Missed }]
                        + glyph_span(w_old.chars@, ci as int, k as int),
                decreases expected_len - k,
            {
                ops.push(DrawInstruction::Glyph {
                    c: copy_char(&self.marked.lines[li].words[wi].chars[k]),
                });
                k = k + 1;
                proof {
                    assert(ops@ =~= seq![
                        DrawInstruction::SetForeground { class: ColorClass::Missed },
                    ] + glyph_span(w_old.chars@, ci as int, k as int));
                }
            }
        }
        ops.push(DrawInstruction::Gap { padding: self.marked.lines[li].words[wi].padding });
        let wcount = self.marked.lines[li].words.len();
        if wi + 1 < wcount {
            self.word_index = wi + 1;
            self.char_index = 0;
            proof {
                lemma_flat_index(self.marked, li as int, wi as int + 1);
                assert(doc_content(self.marked)[cursor_flat(*self)].1 == Seq::<char>::empty());
                assert(ops@ =~= space_paint(w_old, ci as int, false, sx));
            }
            return (ops, None);
        }
        let lcount = self.marked.lines.len();
        if li + 1 < lcount {
            ops.push(DrawInstruction::NewLine);
            ops.push(DrawInstruction::MoveRight { n: self.layout.text_start_x });
            self.line_index = li + 1;
            self.word_index = 0;
            self.char_index = 0;
            proof {
                lemma_flat_count_step(self.marked, li as int);
                lemma_flat_index(self.marked, li as int + 1, 0);
                assert(cursor_flat(*self) == cursor_flat(*old(self)) + 1);
                assert(doc_content(self.marked)[cursor_flat(*self)].1 == Seq::<char>::empty());
                assert(ops@ =~= space_paint(w_old, ci as int, true, sx));
            }
            return (ops, None);
        }
        self.done = true;
        proof {
            assert(ops@ =~= space_paint(w_old, ci as int, false, sx));
        }
        (ops, Some(ExitStatus::Completed))
    }

    /// Reflows the document from the cursor's line after its word outgrew its
    /// slot, repaints every touched line, and walks the cursor back to the
    /// same word at the same typed offset.
    #[verifier::loop_isolation(false)]
    #[verifier::rlimit(100)]
    fn do_reflow(&mut self) -> (out: Vec<DrawInstruction>)
        requires
            session_wf(*old(self)),
            !old(self).done,
            content_cost(doc_content(old(self).marked)) + old(self).marked.alignment + 1
                <= usize::MAX,
        ensures
            session_wf(*final(self)),
            !final(self).done,
            final(self).layout == old(self).layout,
            final(self).marked.alignment == old(self).marked.alignment,
            doc_content(final(self).marked) == doc_content(old(self).marked),
            cursor_flat(*final(self)) == cursor_flat(*old(self)),
            final(self).char_index == old(self).char_index,
            word_content(cursor_word(*final(self))) == word_content(cursor_word(*old(self))),
            exists|to: int|
                #![auto]
                old(self).line_index <= to < final(self).marked.lines@.len() && out@
                    == overflow_paint(
                    final(self).marked,
                    old(self).line_index as int,
                    to,
                    final(self).line_index as int,
                    final(self).word_index as int,
                    final(self).char_index as int,
                    old(self).layout.text_start_x,
                ),
    {
        let mut ops: Vec<DrawInstruction> = Vec::new();
        let li = self.line_index;
        let wi = self.word_index;
        let ghost dmid = self.marked;
        proof {
            assert(doc_content(dmid).len() <= content_cost(doc_content(dmid)));
        }
        let g = flat_index(&self.marked, li, wi);
        proof {
            lemma_flat_count_step(dmid, li as int);
            lemma_flat_count_mono(dmid, li as int + 1, dmid.lines@.len() as int);
        }
        let last = self.marked.rebuild(li);
        let nlines = self.marked.lines.len();
        let ghost dfin = self.marked;
        proof {
            assert(doc_wf(dfin)) by {
                assert forall|i: int, k: int|
                    0 <= i < dfin.lines@.len() && 0 <= k < dfin.lines@[i].words@.len() implies (
                #[trigger] dfin.lines@[i].words@[k]).padding <= dfin.alignment + 1 by {
                    if i < li as int || last < i {
                        if i < dmid.lines@.len() {
                            assert(crate::tui::line_view(dfin.lines@[i]) == crate::tui::line_view(
                                dmid.lines@[i],
                            ));
                            assert(crate::tui::line_view(dfin.lines@[i]).len()
                                == crate::tui::line_view(dmid.lines@[i]).len());
                            assert(k < dmid.lines@[i].words@.len());
                            assert(crate::tui::line_view(dfin.lines@[i])[k] == crate::tui::line_view(
                                dmid.lines@[i],
                            )[k]);
                            assert(crate::tui::word_view(dfin.lines@[i].words@[k])
                                == crate::tui::word_view(dmid.lines@[i].words@[k]));
                            assert(dfin.lines@[i].words@[k].padding
                                == dmid.lines@[i].words@[k].padding);
                            assert(dmid.lines@[i].words@[k].padding <= dmid.alignment + 1);
                        } else {
                            assert(i >= dmid.lines@.len());
                            assert(i == dfin.lines@.len() - 1 && i == last + 1);
                            assert(false);
                        }
                    } else if i < dmid.lines@.len() {
                        lemma_balanced_padding_bound(dfin.lines@[i], dfin.alignment as nat);
                    } else {
                        if line_is_balanced(dfin.lines@[i], dfin.alignment as nat) {
                            lemma_balanced_padding_bound(dfin.lines@[i], dfin.alignment as nat);
                        }
                    }
                }
            }
        }
        let sx = self.layout.text_start_x;
        let mut k: usize = li;
        proof {
            assert(ops@ =~= lines_paint(dfin.lines@, li as int, li as int - 1, sx));
        }
        while k <= last
            invariant
                li <= k <= last + 1,
                last < nlines,
                ops@ == lines_paint(dfin.lines@, li as int, k as int - 1, sx),
            decreases last + 1 - k,
        {
            paint_line(&mut ops, &self.marked.lines[k], sx);
            proof {
                lemma_lines_paint_snoc(dfin.lines@, li as int, k as int, sx);
            }
            k = k + 1;
        }
        ops.push(DrawInstruction::CarriageReturn);
        ops.push(DrawInstruction::MoveRight { n: sx });
        proof {
            assert(doc_content(dfin).len() == doc_content(dmid).len());
        }
        let pos = locate(&self.marked, g);
        proof {
            let lid = li as int;
            let lastd = last as int;
            assert(g < lines_content(dmid.lines@.subrange(0, lid + 1)).len());
            if dfin.lines@.len() == dmid.lines@.len() {
                assert(dfin.lines@.subrange(lastd + 1, dfin.lines@.len() as int).map_values(
                    |x: crate::tui::MarkedLine| line_content(x),
                ) =~= dmid.lines@.subrange(lastd + 1, dmid.lines@.len() as int).map_values(
                    |x: crate::tui::MarkedLine| line_content(x),
                )) by {
                    assert forall|j: int|
                        #![trigger dfin.lines@.subrange(lastd + 1, dfin.lines@.len() as int)[j]]
                        0 <= j < dfin.lines@.len() - lastd - 1 implies line_content(
                        dfin.lines@.subrange(lastd + 1, dfin.lines@.len() as int)[j],
                    ) == line_content(
                        dmid.lines@.subrange(lastd + 1, dmid.lines@.len() as int)[j],
                    ) by {
                        assert(crate::tui::line_view(dfin.lines@[lastd + 1 + j])
                            == crate::tui::line_view(dmid.lines@[lastd + 1 + j]));
                        crate::tui::lemma_view_eq_content(
                            dfin.lines@[lastd + 1 + j],
                            dmid.lines@[lastd + 1 + j],
                        );
                    }
                }
                lemma_flat_count_bound(dfin, lastd + 1);
                lemma_flat_count_bound(dmid, lastd + 1);
                lemma_flat_count_mono(dmid, lid + 1, lastd + 1);
            } else {
                lemma_flat_count_bound(dfin, lastd + 1);
                assert(dfin.lines@.subrange(lastd + 1, dfin.lines@.len() as int) =~= Seq::<
                    crate::tui::MarkedLine,
                >::empty());
                assert(Seq::<crate::tui::MarkedLine>::empty().map_values(
                    |x: crate::tui::MarkedLine| line_content(x),
                ) =~= Seq::<Seq<(Seq<char>, Seq<char>)>>::empty());
            }
            assert(g < lines_content(dfin.lines@.subrange(0, lastd + 1)).len());
            if pos.0 > last {
                lemma_flat_count_mono(dfin, lastd + 1, pos.0 as int);
                assert(false);
            }
        }
        ops.push(DrawInstruction::MoveUp { n: last + 1 - pos.0 });
        let ghost ops_base = ops@;
        let mut t: usize = 0;
        proof {
            assert(ops@ =~= ops_base + cursor_walk(dfin.lines@[pos.0 as int].words@, 0));
        }
        while t < pos.1
            invariant
                t <= pos.1,
                ops@ == ops_base + cursor_walk(dfin.lines@[pos.0 as int].words@, t as int),
            decreases pos.1 - t,
        {
            let wref = &self.marked.lines[pos.0].words[t];
            let width = if wref.chars.len() >= wref.actual_chars.len() {
                wref.chars.len()
            } else {
                wref.actual_chars.len()
            };
            proof {
                lemma_flat_index(dfin, pos.0 as int, t as int);
                lemma_width_le_sum(doc_content(dfin), flat_position(dfin, pos.0 as int, t as int));
                assert(doc_content(dfin).len() >= 1);
            }
            ops.push(DrawInstruction::MoveRight { n: width + wref.padding + 1 });
            t = t + 1;
            proof {
                assert(ops@ =~= ops_base + cursor_walk(dfin.lines@[pos.0 as int].words@, t as int));
            }
        }
        ops.push(DrawInstruction::MoveRight { n: self.char_index });
        self.line_index = pos.0;
        self.word_index = pos.1;
        proof {
            lemma_flat_index(dfin, pos.0 as int, pos.1 as int);
            lemma_flat_index(dmid, li as int, wi as int);
            assert(word_content(cursor_word(*self)) == doc_content(dmid)[g as int]);
            assert(ops@ =~= overflow_paint(
                dfin,
                li as int,
                last as int,
                pos.0 as int,
                pos.1 as int,
                self.char_index as int,
                sx,
            ));
        }
        ops
    }

    /// Types one content character into the current word: appends it to the
    /// typed text and repaints its cell, or reflows the document when the
    /// word has outgrown its slot.
    fn do_content(&mut self, c: char) -> (out: Vec<DrawInstruction>)
        requires
            session_wf(*old(self)),
            !old(self).done,
            content_cost(doc_content(old(self).marked)) + old(self).marked.alignment + 2
                <= usize::MAX,
        ensures
            session_wf(*final(self)),
            !final(self).done,
            final(self).layout == old(self).layout,
            final(self).marked.alignment == old(self).marked.alignment,
            content_cost(doc_content(final(self).marked)) <= content_cost(
                doc_content(old(self).marked),
            ) + 1,
            final(self).char_index == old(self).char_index + 1,
            cursor_flat(*final(self)) == cursor_flat(*old(self)),
            word_content(cursor_word(*final(self))) == (
                cursor_word(*old(self)).chars@,
                cursor_word(*old(self)).actual_chars@.push(c),
            ),
            doc_content(final(self).marked) == doc_content(old(self).marked).update(
                cursor_flat(*old(self)),
                (cursor_word(*old(self)).chars@, cursor_word(*old(self)).actual_chars@.push(c)),
            ),
            old(self).char_index < cursor_word(*old(self)).chars@.len() ==> (final(self).line_index == old(self).line_index && final(self).word_index == old(self).word_index
                && final(self).marked.lines@.len() == old(self).marked.lines@.len() && (forall|
                j: int,
            |
                0 <= j < old(self).marked.lines@.len() && j != old(self).line_index ==> final(self).marked.lines@[j] == old(self).marked.lines@[j]) && crate::tui::line_view(
                final(self).marked.lines@[old(self).line_index as int],
            ) == crate::tui::line_view(old(self).marked.lines@[old(self).line_index as int]).update(
                old(self).word_index as int,
                (
                    cursor_word(*old(self)).chars@,
                    cursor_word(*old(self)).actual_chars@.push(c),
                    cursor_word(*old(self)).padding as nat,
                ),
            )),
            old(self).char_index < cursor_word(*old(self)).chars@.len() ==> out@ == seq![
                DrawInstruction::SetForeground {
                    class: if cursor_word(*old(self)).chars@[old(self).char_index as int] == c {
                        ColorClass::Correct
                    } else {
                        ColorClass::Incorrect
                    },
                },
                DrawInstruction::Glyph { c },
            ],
            old(self).char_index >= cursor_word(*old(self)).chars@.len() ==> (exists|to: int|
                #![auto]
                old(self).line_index <= to < final(self).marked.lines@.len() && out@
                    == overflow_paint(
                    final(self).marked,
                    old(self).line_index as int,
                    to,
                    final(self).line_index as int,
                    final(self).word_index as int,
                    final(self).char_index as int,
                    old(self).layout.text_start_x,
                )),
    {
        let mut ops: Vec<DrawInstruction> = Vec::new();
        let li = self.line_index;
        let wi = self.word_index;
        let ci = self.char_index;
        let ghost w_old = cursor_word(*old(self));
        let ghost old_lines = self.marked.lines@;
        let ghost old_doc = self.marked;
        let expected_len = self.marked.lines[li].words[wi].chars.len();
        let ghost wc2 = (w_old.chars@, w_old.actual_chars@.push(c));
        let g = flat_index(&self.marked, li, wi);
        proof {
            lemma_flat_index(old_doc, li as int, wi as int);
            lemma_width_le_sum(doc_content(old_doc), g as int);
            assert(doc_content(old_doc).len() >= 1);
        }
        self.marked.lines[li].words[wi].actual_chars.push(c);
        self.char_index = ci + 1;
        proof {
            let lid = li as int;
            let wid = wi as int;
            let l2 = self.marked.lines@[lid];
            let w2 = l2.words@[wid];
            assert(w2.actual_chars@ == w_old.actual_chars@.push(c));
            assert(self.marked.lines@ =~= old_lines.update(lid, l2));
            assert(l2.words@ =~= old_lines[lid].words@.update(wid, w2));
            assert(line_content(l2) =~= line_content(old_lines[lid]).update(wid, wc2));
            lemma_lines_content_word_update(old_lines, lid, l2, wid, wc2);
            assert(self.marked.lines@.subrange(0, lid) =~= old_lines.subrange(0, lid));
            assert(g == cursor_flat(*old(self)));
            lemma_widths_sum_update(doc_content(old_doc), g as int, wc2);
            assert(crate::tui::line_view(l2) =~= crate::tui::line_view(old_lines[lid]).update(
                wid,
                (w_old.chars@, w_old.actual_chars@.push(c), w_old.padding as nat),
            ));
        }
        if ci + 1 > expected_len {
            let ghost dmid = self.marked;
            let out2 = self.do_reflow();
            proof {
                assert(doc_content(self.marked) == doc_content(dmid));
            }
            return out2;
        }
        let exp_c = self.marked.lines[li].words[wi].chars[ci];
        let cls = if exp_c == c {
            ColorClass::Correct
        } else {
            ColorClass::Incorrect
        };
        ops.push(DrawInstruction::SetForeground { class: cls });
        ops.push(DrawInstruction::Glyph { c });
        proof {
            lemma_flat_index(self.marked, li as int, wi as int);
        }
        ops
    }

    /// Feeds one input character to the session. The cancel key ends the
    /// session at once. A space scores any untyped remainder of the current
    /// word as missed and advances to the next word, finishing the session
    /// after the last word of the last line. A backspace withdraws the last
    /// typed character of the current word and does nothing at a word's
    /// start. Any other character is typed into the current word: its cell is
    /// repainted with the match verdict, and when the word outgrows its slot
    /// the document reflows and every touched line is repainted, the cursor
    /// returning to the same word wherever it moved. Returns the draw
    /// instructions and, if this input ended the session, how it ended.
    pub fn step(&mut self, c: char) -> (r: (Vec<DrawInstruction>, Option<ExitStatus>))
        requires
            session_wf(*old(self)),
            !old(self).done,
            (c != cancel_key() && c != backspace_key() && c != ' ') ==> content_cost(
                doc_content(old(self).marked),
            ) + old(self).marked.alignment + 2 <= usize::MAX,
        ensures
            session_wf(*final(self)),
            final(self).layout == old(self).layout,
            final(self).marked.alignment == old(self).marked.alignment,
            final(self).done <==> r.1 is Some,
            content_cost(doc_content(final(self).marked)) <= content_cost(
                doc_content(old(self).marked),
            ) + 1,
            doc_words(final(self).marked) == doc_words(old(self).marked),
            c == cancel_key() ==> (r.1 == Some(ExitStatus::TerminatedByUser) && r.0@ == Seq::<
                DrawInstruction,
            >::empty() && final(self).marked == old(self).marked),
            c == backspace_key() ==> r.1 is None,
            (c == backspace_key() && old(self).char_index == 0) ==> (final(self).marked == old(self).marked && final(self).line_index == old(self).line_index && final(self).word_index
                == old(self).word_index && final(self).char_index == old(self).char_index && r.0@
                == Seq::<DrawInstruction>::empty()),
            (c == backspace_key() && old(self).char_index > 0) ==> (final(self).line_index == old(self).line_index && final(self).word_index == old(self).word_index && final(self).char_index == old(self).char_index - 1),
            (c == backspace_key() && old(self).char_index > 0) ==> doc_content(
                final(self).marked,
            ) == doc_content(old(self).marked).update(
                cursor_flat(*old(self)),
                (cursor_word(*old(self)).chars@, cursor_word(*old(self)).actual_chars@.drop_last()),
            ),
            (c == backspace_key() && old(self).char_index > 0) ==> r.0@ == backspace_paint(
                cursor_word(*old(self)),
                old(self).char_index as int,
            ),
            c == ' ' ==> final(self).marked == old(self).marked,
            (c == ' ' && old(self).word_index + 1 < old(self).marked.lines@[old(self).line_index as int].words@.len()) ==> (r.1 is None && final(self).line_index == old(self).line_index && final(self).word_index == old(self).word_index + 1 && final(self).char_index == 0),
            (c == ' ' && old(self).word_index + 1 == old(self).marked.lines@[old(self).line_index as int].words@.len() && old(self).line_index + 1 < old(self).marked.lines@.len()) ==> (r.1 is None && final(self).line_index == old(self).line_index + 1 && final(self).word_index == 0 && final(self).char_index == 0),
            (c == ' ' && old(self).word_index + 1 == old(self).marked.lines@[old(self).line_index as int].words@.len() && old(self).line_index + 1 == old(self).marked.lines@.len()) ==> r.1 == Some(ExitStatus::Completed),
            c == ' ' ==> r.0@ == space_paint(
                cursor_word(*old(self)),
                old(self).char_index as int,
                old(self).word_index + 1 == old(self).marked.lines@[old(self).line_index as int].words@.len() && old(self).line_index + 1 < old(self).marked.lines@.len(),
                old(self).layout.text_start_x,
            ),
            (c != cancel_key() && c != backspace_key() && c != ' ') ==> (r.1 is None && final(self).char_index == old(self).char_index + 1 && cursor_flat(*final(self)) == cursor_flat(
                *old(self),
            ) && word_content(cursor_word(*final(self))) == (
                cursor_word(*old(self)).chars@,
                cursor_word(*old(self)).actual_chars@.push(c),
            )),
            (c != cancel_key() && c != backspace_key() && c != ' ') ==> doc_content(
                final(self).marked,
            ) == doc_content(old(self).marked).update(
                cursor_flat(*old(self)),
                (cursor_word(*old(self)).chars@, cursor_word(*old(self)).actual_chars@.push(c)),
            ),
            (c != cancel_key() && c != backspace_key() && c != ' ' && old(self).char_index
                < cursor_word(*old(self)).chars@.len()) ==> (final(self).line_index == old(self).line_index && final(self).word_index == old(self).word_index && final(self).marked.lines@.len() == old(self).marked.lines@.len()),
            (c != cancel_key() && c != backspace_key() && c != ' ' && old(self).char_index
                < cursor_word(*old(self)).chars@.len()) ==> r.0@ == seq![
                DrawInstruction::SetForeground {
                    class: if cursor_word(*old(self)).chars@[old(self).char_index as int] == c {
                        ColorClass::Correct
                    } else {
                        ColorClass::Incorrect
                    },
                },
                DrawInstruction::Glyph { c },
            ],
            (c != cancel_key() && c != backspace_key() && c != ' ' && old(self).char_index
                >= cursor_word(*old(self)).chars@.len()) ==> (exists|to: int|
                #![auto]
                old(self).line_index <= to < final(self).marked.lines@.len() && r.0@
                    == overflow_paint(
                    final(self).marked,
                    old(self).line_index as int,
                    to,
                    final(self).line_index as int,
                    final(self).word_index as int,
                    final(self).char_index as int,
                    old(self).layout.text_start_x,
                )),
    {
        if c == '\u{1b}' {
            self.done = true;
            let out: Vec<DrawInstruction> = Vec::new();
            return (out, Some(ExitStatus::TerminatedByUser));
        }
        if c == '\u{7f}' {
            let ghost pre = *self;
            let out = self.do_backspace();
            proof {
                if pre.char_index > 0 {
                    lemma_flat_index(pre.marked, pre.line_index as int, pre.word_index as int);
                    lemma_words_unchanged_by_typing(
                        doc_content(pre.marked),
                        cursor_flat(pre),
                        cursor_word(pre).actual_chars@.drop_last(),
                    );
                }
            }
            return (out, None);
        }
        if c == ' ' {
            return self.do_space();
        }
        let ghost pre = *self;
        let out = self.do_content(c);
        proof {
            lemma_flat_index(pre.marked, pre.line_index as int, pre.word_index as int);
            lemma_words_unchanged_by_typing(
                doc_content(pre.marked),
                cursor_flat(pre),
                cursor_word(pre).actual_chars@.push(c),
            );
        }
        (out, None)
    }
}

/// The length of all the words' texts together.
pub open spec fn texts_len(ws: Seq<Seq<char>>) -> int
    decreases ws.len(),
{
    if ws.len() == 0 {
        0
    } else {
        ws[0].len() + texts_len(ws.drop_first())
    }
}

/// The script that types every word perfectly: each word's characters in
/// order, one space after each word.
pub open spec fn canonical_inputs(ws: Seq<Seq<char>>) -> Seq<char>
    decreases ws.len(),
{
    if ws.len() == 0 {
        Seq::empty()
    } else {
        ws[0] + seq![' '] + canonical_inputs(ws.drop_first())
    }
}

/// How many script characters the first `g` words take: their texts plus one
/// space each.
pub open spec fn script_prefix(ws: Seq<Seq<char>>, g: int) -> int
    decreases g,
{
    if g <= 0 {
        0
    } else {
        ws[0].len() + 1 + script_prefix(ws.drop_first(), g - 1)
    }
}

/// Words made of plain content characters only: no space, no cancel key, no
/// backspace inside a word.
pub open spec fn plain_words(ws: Seq<Seq<char>>) -> bool {
    forall|j: int, t: int|
        0 <= j < ws.len() && 0 <= t < ws[j].len() ==> ((#[trigger] ws[j][t]) != ' ' && ws[j][t]
            != cancel_key() && ws[j][t] != backspace_key())
}

/// Typing every word perfectly consumes each word's characters and one space
/// after each word: the whole script is the total character count plus the
/// word count long.
pub proof fn lemma_canonical_count(ws: Seq<Seq<char>>)
    ensures
        canonical_inputs(ws).len() == texts_len(ws) + ws.len(),
    decreases ws.len(),
{
    if ws.len() > 0 {
        lemma_canonical_count(ws.drop_first());
    }
}

proof fn lemma_script_prefix_step(ws: Seq<Seq<char>>, g: int)
    requires
        0 <= g < ws.len(),
    ensures
        script_prefix(ws, g + 1) == script_prefix(ws, g) + ws[g].len() + 1,
    decreases g,
{
    if g == 0 {
        assert(script_prefix(ws, 1) == ws[0].len() + 1 + script_prefix(ws.drop_first(), 0));
        assert(script_prefix(ws.drop_first(), 0) == 0);
    } else {
        lemma_script_prefix_step(ws.drop_first(), g - 1);
        assert(script_prefix(ws, g + 1) == ws[0].len() + 1 + script_prefix(ws.drop_first(), g));
        assert(script_prefix(ws, g) == ws[0].len() + 1 + script_prefix(ws.drop_first(), g - 1));
        assert(ws.drop_first()[g - 1] == ws[g]);
    }
}

proof fn lemma_script_prefix_full(ws: Seq<Seq<char>>)
    ensures
        script_prefix(ws, ws.len() as int) == canonical_inputs(ws).len(),
    decreases ws.len(),
{
    if ws.len() > 0 {
        lemma_script_prefix_full(ws.drop_first());
    }
}

/// Where the script stands after `g` perfect words and `ci` characters of the
/// next: inside the word it expects that word's character, at its end the
/// separating space.
proof fn lemma_canonical_index(ws: Seq<Seq<char>>, g: int, ci: int)
    requires
        0 <= g < ws.len(),
        0 <= ci <= ws[g].len(),
    ensures
        script_prefix(ws, g) + ci < canonical_inputs(ws).len(),
        canonical_inputs(ws)[script_prefix(ws, g) + ci] == (if ci < ws[g].len() {
            ws[g][ci]
        } else {
            ' '
        }),
    decreases g,
{
    lemma_script_prefix_full(ws);
    if g == 0 {
        assert(script_prefix(ws.drop_first(), ws.len() - 1) >= 0) by {
            lemma_script_prefix_nonneg(ws.drop_first(), ws.len() - 1);
        }
        lemma_canonical_count(ws);
        lemma_texts_len_nonneg(ws.drop_first());
    } else {
        lemma_canonical_index(ws.drop_first(), g - 1, ci);
        lemma_script_prefix_nonneg(ws.drop_first(), g - 1);
        lemma_canonical_count(ws.drop_first());
        lemma_texts_len_nonneg(ws.drop_first());
        assert(ws.drop_first()[g - 1] == ws[g]);
        assert(script_prefix(ws, g) == ws[0].len() + 1 + script_prefix(ws.drop_first(), g - 1));
        assert(canonical_inputs(ws) == (ws[0] + seq![' ']) + canonical_inputs(ws.drop_first()));
        assert(canonical_inputs(ws)[script_prefix(ws, g) + ci] == canonical_inputs(
            ws.drop_first(),
        )[script_prefix(ws.drop_first(), g - 1) + ci]);
    }
}

proof fn lemma_script_prefix_nonneg(ws: Seq<Seq<char>>, g: int)
    ensures
        script_prefix(ws, g) >= 0,
    decreases g,
{
    if g > 0 {
        lemma_script_prefix_nonneg(ws.drop_first(), g - 1);
    }
}

proof fn lemma_texts_len_nonneg(ws: Seq<Seq<char>>)
    ensures
        texts_len(ws) >= 0,
    decreases ws.len(),
{
    if ws.len() > 0 {
        lemma_texts_len_nonneg(ws.drop_first());
    }
}

impl Session {
    /// Drives the session over a recorded script, one character per step,
    /// stopping at the first character that ends it. Returns every step's
    /// draw instructions in order, how the session ended if it did, and how
    /// many characters were consumed. A fresh session fed exactly the
    /// canonical script of its own words, typed perfectly, always ends with
    /// the whole text completed, consuming the whole script.
    #[verifier::loop_isolation(false)]
    #[verifier::rlimit(60)]
    pub fn run_script(&mut self, inputs: &Vec<char>) -> (r: (
        Vec<DrawInstruction>,
        Option<ExitStatus>,
        usize,
    ))
        requires
            session_wf(*old(self)),
            !old(self).done,
            content_cost(doc_content(old(self).marked)) + old(self).marked.alignment + 2
                + inputs@.len() <= usize::MAX,
        ensures
            session_wf(*final(self)),
            final(self).layout == old(self).layout,
            final(self).marked.alignment == old(self).marked.alignment,
            r.2 <= inputs@.len(),
            r.1 is Some <==> final(self).done,
            r.1 is None ==> r.2 == inputs@.len(),
            doc_words(final(self).marked) == doc_words(old(self).marked),
            (old(self).line_index == 0 && old(self).word_index == 0 && old(self).char_index == 0
                && inputs@ == canonical_inputs(doc_words(old(self).marked)) && plain_words(
                doc_words(old(self).marked),
            )) ==> (r.1 == Some(ExitStatus::Completed) && r.2 == inputs@.len()),
    {
        let ghost dw = doc_words(old(self).marked);
        let ghost cost0 = content_cost(doc_content(old(self).marked));
        let ghost guard = old(self).line_index == 0 && old(self).word_index == 0 && old(
            self,
        ).char_index == 0 && inputs@ == canonical_inputs(dw) && plain_words(dw);
        let total = inputs.len();
        let mut consumed: usize = 0;
        let mut all: Vec<DrawInstruction> = Vec::new();
        proof {
            if guard {
                assert(self.marked.lines@.subrange(0, 0) =~= Seq::<crate::tui::MarkedLine>::empty());
                assert(Seq::<crate::tui::MarkedLine>::empty().map_values(
                    |x: crate::tui::MarkedLine| line_content(x),
                ) =~= Seq::<Seq<(Seq<char>, Seq<char>)>>::empty());
                assert(cursor_flat(*self) == 0);
                lemma_flat_index(self.marked, 0, 0);
                assert(dw[0] == doc_content(self.marked)[0].0);
                assert(self.char_index <= dw[cursor_flat(*self)].len());
            }
        }
        while consumed < total
            invariant
                session_wf(*self),
                !self.done,
                consumed <= total,
                self.layout == old(self).layout,
                self.marked.alignment == old(self).marked.alignment,
                content_cost(doc_content(self.marked)) <= cost0 + consumed,
                doc_words(self.marked) == doc_words(old(self).marked),
                guard ==> (doc_words(self.marked) == dw && 0 <= cursor_flat(*self) < dw.len()
                    && self.char_index <= dw[cursor_flat(*self)].len() && consumed == script_prefix(
                    dw,
                    cursor_flat(*self),
                ) + self.char_index),
            decreases total - consumed,
        {
            let c = inputs[consumed];
            let ghost pre = *self;
            let ghost gw = cursor_flat(*self);
            let ghost ci = self.char_index as int;
            proof {
                if guard {
                    lemma_canonical_index(dw, gw, ci);
                    assert(c == (if ci < dw[gw].len() {
                        dw[gw][ci]
                    } else {
                        ' '
                    }));
                    lemma_flat_index(self.marked, self.line_index as int, self.word_index as int);
                    assert(cursor_word(*self).chars@ == dw[gw]);
                }
            }
            let (mut step_ops, status) = self.step(c);
            all.append(&mut step_ops);
            consumed = consumed + 1;
            proof {
                if guard {
                    if ci < dw[gw].len() {
                        // a content character of the current word, no overflow
                        assert(c != ' ' && c != cancel_key() && c != backspace_key());
                        assert(cursor_flat(*self) == gw);
                        assert(self.char_index == ci + 1);
                        assert(doc_words(self.marked) =~= dw) by {
                            assert(doc_content(self.marked) == doc_content(pre.marked).update(
                                gw,
                                (cursor_word(pre).chars@, cursor_word(pre).actual_chars@.push(c)),
                            ));
                        }
                        assert(status is None);
                    } else {
                        // the separating space
                        assert(c == ' ');
                        assert(self.marked == pre.marked);
                        let licount = pre.marked.lines@[pre.line_index as int].words@.len() as int;
                        if pre.word_index + 1 < licount {
                            assert(cursor_flat(*self) == gw + 1);
                            assert(status is None);
                        } else if pre.line_index + 1 < pre.marked.lines@.len() {
                            lemma_flat_count_step(pre.marked, pre.line_index as int);
                            assert(cursor_flat(*self) == gw + 1);
                            assert(status is None);
                        } else {
                            // the last word of the last line: the text is done
                            lemma_flat_count_bound(pre.marked, pre.line_index as int + 1);
                            lemma_flat_count_step(pre.marked, pre.line_index as int);
                            assert(gw == dw.len() - 1);
                            assert(status == Some(ExitStatus::Completed));
                        }
                        if status is None {
                            lemma_script_prefix_step(dw, gw);
                            lemma_flat_index(
                                self.marked,
                                self.line_index as int,
                                self.word_index as int,
                            );
                        }
                    }
                }
            }
            match status {
                Some(st) => {
                    proof {
                        if guard {
                            lemma_script_prefix_step(dw, gw);
                            lemma_script_prefix_full(dw);
                            assert(consumed == total);
                        }
                    }
                    return (all, Some(st), consumed);
                },
                None => {
                },
            }
        }
        proof {
            if guard {
                lemma_canonical_index(dw, cursor_flat(*self), self.char_index as int);
                assert(consumed < total);
                assert(false);
            }
        }
        (all, None, consumed)
    }
}

/// The glyphs of one whole text, printed in order.
pub open spec fn glyphs_of(cs: Seq<char>) -> Seq<DrawInstruction> {
    glyph_span(cs, 0, cs.len() as int)
}

/// The words the terminal shows when the session ends.
pub open spec fn status_text(st: ExitStatus) -> Seq<char> {
    match st {
        ExitStatus::Completed => seq!['O', 'k'],
        ExitStatus::TerminatedByUser => seq![
            'T', 'e', 'r', 'm', 'i', 'n', 'a', 't', 'e', 'd', ' ', 'b', 'y', ' ', 'u', 's', 'e',
            'r',
        ],
        ExitStatus::InputStreamEnd => seq![
            'I', 'n', 'p', 'u', 't', ' ', 's', 't', 'r', 'e', 'a', 'm', ' ', 'e', 'n', 'd',
        ],
    }
}

/// Appends one glyph instruction per character of `text`.
fn push_glyphs(ops: &mut Vec<DrawInstruction>, text: &Vec<char>)
    ensures
        final(ops)@ == old(ops)@ + glyphs_of(text@),
{
    let n = text.len();
    let mut k: usize = 0;
    proof {
        assert(ops@ =~= old(ops)@ + glyph_span(text@, 0, 0));
    }
    while k < n
        invariant
            k <= n,
            n == text@.len(),
            ops@ == old(ops)@ + glyph_span(text@, 0, k as int),
        decreases n - k,
    {
        ops.push(DrawInstruction::Glyph { c: copy_char(&text[k]) });
        k = k + 1;
        proof {
            assert(ops@ =~= old(ops)@ + glyph_span(text@, 0, k as int));
        }
    }
}

impl Session {
    /// The screen as it stands before the first keystroke: the cleared
    /// background, the text's name in the interface color, the whole
    /// justified document in the untyped color, and the cursor parked on the
    /// first character ready to type in the scoring color.
    pub fn initial_render(&self, name: &str) -> (r: Vec<DrawInstruction>)
        requires
            self.layout.name_x < usize::MAX,
            self.layout.text_start_x < usize::MAX,
            self.marked.lines@.len() >= 1,
        ensures
            r@ == seq![
                DrawInstruction::SetBackground,
                DrawInstruction::Clear,
                DrawInstruction::SetCursor { x: (self.layout.name_x + 1) as usize, y: self.layout.name_y },
                DrawInstruction::SetForeground { class: ColorClass::Interface },
            ] + glyphs_of(name@) + seq![
                DrawInstruction::SetCursor {
                    x: (self.layout.text_start_x + 1) as usize,
                    y: self.layout.text_start_y,
                },
                DrawInstruction::SetForeground { class: ColorClass::Untyped },
            ] + lines_paint(
                self.marked.lines@,
                0,
                self.marked.lines@.len() - 1,
                self.layout.text_start_x,
            ) + seq![
                DrawInstruction::SetCursor {
                    x: (self.layout.text_start_x + 1) as usize,
                    y: self.layout.text_start_y,
                },
                DrawInstruction::SetForeground { class: ColorClass::Correct },
            ],
    {
        let mut ops: Vec<DrawInstruction> = Vec::new();
        ops.push(DrawInstruction::SetBackground);
        ops.push(DrawInstruction::Clear);
        ops.push(DrawInstruction::SetCursor { x: self.layout.name_x + 1, y: self.layout.name_y });
        ops.push(DrawInstruction::SetForeground { class: ColorClass::Interface });
        let name_chars = crate::text::str_chars(name);
        let ghost head = ops@;
        push_glyphs(&mut ops, &name_chars);
        ops.push(DrawInstruction::SetCursor {
            x: self.layout.text_start_x + 1,
            y: self.layout.text_start_y,
        });
        ops.push(DrawInstruction::SetForeground { class: ColorClass::Untyped });
        let ghost mid = ops@;
        let sx = self.layout.text_start_x;
        let nlines = self.marked.lines.len();
        let mut k: usize = 0;
        proof {
            assert(ops@ =~= mid + lines_paint(self.marked.lines@, 0, -1, sx));
        }
        while k < nlines
            invariant
                k <= nlines,
                nlines == self.marked.lines@.len(),
                sx == self.layout.text_start_x,
                mid == head + glyphs_of(name_chars@) + seq![
                    DrawInstruction::SetCursor {
                        x: (self.layout.text_start_x + 1) as usize,
                        y: self.layout.text_start_y,
                    },
                    DrawInstruction::SetForeground { class: ColorClass::Untyped },
                ],
                ops@ == mid + lines_paint(self.marked.lines@, 0, k as int - 1, sx),
            decreases nlines - k,
        {
            paint_line(&mut ops, &self.marked.lines[k], sx);
            proof {
                lemma_lines_paint_snoc(self.marked.lines@, 0, k as int, sx);
                assert(ops@ =~= mid + lines_paint(self.marked.lines@, 0, k as int, sx));
            }
            k = k + 1;
        }
        ops.push(DrawInstruction::SetCursor {
            x: self.layout.text_start_x + 1,
            y: self.layout.text_start_y,
        });
        ops.push(DrawInstruction::SetForeground { class: ColorClass::Correct });
        proof {
            assert(ops@ =~= seq![
                DrawInstruction::SetBackground,
                DrawInstruction::Clear,
                DrawInstruction::SetCursor { x: (self.layout.name_x + 1) as usize, y: self.layout.name_y },
                DrawInstruction::SetForeground { class: ColorClass::Interface },
            ] + glyphs_of(name@) + seq![
                DrawInstruction::SetCursor {
                    x: (self.layout.text_start_x + 1) as usize,
                    y: self.layout.text_start_y,
                },
                DrawInstruction::SetForeground { class: ColorClass::Untyped },
            ] + lines_paint(
                self.marked.lines@,
                0,
                self.marked.lines@.len() - 1,
                self.layout.text_start_x,
            ) + seq![
                DrawInstruction::SetCursor {
                    x: (self.layout.text_start_x + 1) as usize,
                    y: self.layout.text_start_y,
                },
                DrawInstruction::SetForeground { class: ColorClass::Correct },
            ]);
        }
        ops
    }

    /// The closing line: the cursor placed under the text, the interface
    /// color selected, and the words that say how the session ended.
    pub fn finish_render(&self, status: ExitStatus) -> (r: Vec<DrawInstruction>)
        requires
            self.layout.text_start_x < usize::MAX,
            self.layout.text_start_y + self.marked.lines@.len() + self.layout.result_offset
                <= usize::MAX,
        ensures
            r@ == seq![
                DrawInstruction::SetCursor {
                    x: (self.layout.text_start_x + 1) as usize,
                    y: (self.layout.text_start_y + self.marked.lines@.len()
                        + self.layout.result_offset) as usize,
                },
                DrawInstruction::SetForeground { class: ColorClass::Interface },
            ] + glyphs_of(status_text(status)),
    {
        let mut ops: Vec<DrawInstruction> = Vec::new();
        ops.push(DrawInstruction::SetCursor {
            x: self.layout.text_start_x + 1,
            y: self.layout.text_start_y + self.marked.lines.len() + self.layout.result_offset,
        });
        ops.push(DrawInstruction::SetForeground { class: ColorClass::Interface });
        let mut text: Vec<char> = Vec::new();
        match status {
            ExitStatus::Completed => {
                text.push('O');
                text.push('k');
            },
            ExitStatus::TerminatedByUser => {
                text.push('T');
                text.push('e');
                text.push('r');
                text.push('m');
                text.push('i');
                text.push('n');
                text.push('a');
                text.push('t');
                text.push('e');
                text.push('d');
                text.push(' ');
                text.push('b');
                text.push('y');
                text.push(' ');
                text.push('u');
                text.push('s');
                text.push('e');
                text.push('r');
            },
            ExitStatus::InputStreamEnd => {
                text.push('I');
                text.push('n');
                text.push('p');
                text.push('u');
                text.push('t');
                text.push(' ');
                text.push('s');
                text.push('t');
                text.push('r');
                text.push('e');
                text.push('a');
                text.push('m');
                text.push(' ');
                text.push('e');
                text.push('n');
                text.push('d');
            },
        }
        proof {
            assert(text@ =~= status_text(status));
        }
        push_glyphs(&mut ops, &text);
        proof {
            assert(ops@ =~= seq![
                DrawInstruction::SetCursor {
                    x: (self.layout.text_start_x + 1) as usize,
                    y: (self.layout.text_start_y + self.marked.lines@.len()
                        + self.layout.result_offset) as usize,
                },
                DrawInstruction::SetForeground { class: ColorClass::Interface },
            ] + glyphs_of(status_text(status)));
        }
        ops
    }
}

impl Session {
    /// Whether the document still has arithmetic headroom for one more typed
    /// character: the reflow bookkeeping and the renderer's cursor moves stay
    /// within machine bounds exactly as long as this holds.
    #[verifier::loop_isolation(false)]
    pub fn input_headroom(&self) -> (r: bool)
        ensures
            r == (content_cost(doc_content(self.marked)) + self.marked.alignment + 2
                <= usize::MAX),
    {
        if self.marked.alignment > usize::MAX - 2 {
            proof {
                assert(content_cost(doc_content(self.marked)) + self.marked.alignment + 2
                    > usize::MAX);
            }
            return false;
        }
        let cap = usize::MAX - 2 - self.marked.alignment;
        let nlines = self.marked.lines.len();
        let mut acc: usize = 0;
        let mut i: usize = 0;
        proof {
            assert(self.marked.lines@.subrange(0, 0) =~= Seq::<MarkedLine>::empty());
            assert(Seq::<MarkedLine>::empty().map_values(|x: MarkedLine| line_content(x)) =~= Seq::<
                Seq<(Seq<char>, Seq<char>)>,
            >::empty());
            assert(lines_content(self.marked.lines@.subrange(0, 0)) =~= Seq::<(
                Seq<char>,
                Seq<char>,
            )>::empty());
            assert(widths_sum(Seq::<(Seq<char>, Seq<char>)>::empty()) == 0);
        }
        while i < nlines
            invariant
                i <= nlines,
                nlines == self.marked.lines@.len(),
                cap == usize::MAX - 2 - self.marked.alignment,
                acc <= cap,
                acc == content_cost(lines_content(self.marked.lines@.subrange(0, i as int))),
            decreases nlines - i,
        {
            let nwords = self.marked.lines[i].words.len();
            let ghost lc = line_content(self.marked.lines@[i as int]);
            let mut k: usize = 0;
            proof {
                assert(lc.subrange(0, 0) =~= Seq::<(Seq<char>, Seq<char>)>::empty());
            }
            while k < nwords
                invariant
                    k <= nwords,
                    i < nlines,
                    nwords == self.marked.lines@[i as int].words@.len(),
                    lc == line_content(self.marked.lines@[i as int]),
                    cap == usize::MAX - 2 - self.marked.alignment,
                    acc <= cap,
                    acc == content_cost(lines_content(self.marked.lines@.subrange(0, i as int)))
                        + content_cost(lc.subrange(0, k as int)),
                decreases nwords - k,
            {
                let wref = &self.marked.lines[i].words[k];
                let width = if wref.chars.len() >= wref.actual_chars.len() {
                    wref.chars.len()
                } else {
                    wref.actual_chars.len()
                };
                proof {
                    assert(width == content_width(lc[k as int]));
                    assert(lc.subrange(0, k + 1) =~= lc.subrange(0, k as int).push(lc[k as int]));
                    lemma_widths_sum_push(lc.subrange(0, k as int), lc[k as int]);
                }
                if width >= cap - acc {
                    proof {
                        lemma_doc_cost_lower(self.marked, i as int, k as int);
                    }
                    return false;
                }
                acc = acc + width + 1;
                k = k + 1;
            }
            proof {
                lemma_flat_count_step_content(self.marked, i as int);
                assert(lc.subrange(0, nwords as int) =~= lc);
            }
            i = i + 1;
        }
        proof {
            assert(self.marked.lines@.subrange(0, nlines as int) =~= self.marked.lines@);
        }
        true
    }
}

/// The words up to and including word `k` of line `i` already ask for at
/// least their own room out of the whole document's.
proof fn lemma_doc_cost_lower(d: MarkedQuote, i: int, k: int)
    requires
        0 <= i < d.lines@.len(),
        0 <= k < d.lines@[i].words@.len(),
    ensures
        content_cost(doc_content(d)) >= content_cost(
            lines_content(d.lines@.subrange(0, i)),
        ) + content_cost(line_content(d.lines@[i]).subrange(0, k)) + content_width(
            line_content(d.lines@[i])[k],
        ) + 1,
{
    let n = d.lines@.len() as int;
    let lc = line_content(d.lines@[i]);
    let m = lc.len() as int;
    assert(d.lines@ =~= d.lines@.subrange(0, i) + seq![d.lines@[i]] + d.lines@.subrange(i + 1, n));
    lemma_lines_content_concat(
        d.lines@.subrange(0, i) + seq![d.lines@[i]],
        d.lines@.subrange(i + 1, n),
    );
    lemma_lines_content_concat(d.lines@.subrange(0, i), seq![d.lines@[i]]);
    lemma_lines_content_singleton(d.lines@[i]);
    crate::tui::lemma_widths_sum_concat(
        lines_content(d.lines@.subrange(0, i)) + lc,
        lines_content(d.lines@.subrange(i + 1, n)),
    );
    crate::tui::lemma_widths_sum_concat(lines_content(d.lines@.subrange(0, i)), lc);
    assert(lc =~= lc.subrange(0, k) + seq![lc[k]] + lc.subrange(k + 1, m));
    crate::tui::lemma_widths_sum_concat(lc.subrange(0, k) + seq![lc[k]], lc.subrange(k + 1, m));
    crate::tui::lemma_widths_sum_concat(lc.subrange(0, k), seq![lc[k]]);
    assert(crate::tui::widths_sum(seq![lc[k]]) == content_width(lc[k])) by {
        assert(crate::tui::widths_sum(Seq::<(Seq<char>, Seq<char>)>::empty()) == 0);
        assert(seq![lc[k]].drop_first() =~= Seq::<(Seq<char>, Seq<char>)>::empty());
    }
}

/// Adding one line's words extends the flattened contents by that line.
proof fn lemma_flat_count_step_content(d: MarkedQuote, li: int)
    requires
        0 <= li < d.lines@.len(),
    ensures
        lines_content(d.lines@.subrange(0, li + 1)) == lines_content(d.lines@.subrange(0, li))
            + line_content(d.lines@[li]),
        content_cost(lines_content(d.lines@.subrange(0, li + 1))) == content_cost(
            lines_content(d.lines@.subrange(0, li)),
        ) + content_cost(line_content(d.lines@[li])),
{
    assert(d.lines@.subrange(0, li + 1) =~= d.lines@.subrange(0, li).push(d.lines@[li]));
    lemma_lines_content_push(d.lines@.subrange(0, li), d.lines@[li]);
    crate::tui::lemma_widths_sum_concat(
        lines_content(d.lines@.subrange(0, li)),
        line_content(d.lines@[li]),
    );
}

} // verus!
