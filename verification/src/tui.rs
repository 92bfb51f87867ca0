//! The layout engine: greedy word wrap, exact justification, incremental
//! reflow, and the models the session and renderer reason over.

use vstd::prelude::*;

use crate::quote::Quote;
use vstd::arithmetic::div_mod::{
    lemma_div_is_ordered, lemma_fundamental_div_mod, lemma_fundamental_div_mod_converse,
    lemma_mod_division_less_than_divisor,
};

verus! {

/// A word of the reference text, the text the user has typed for it so far,
/// and the extra spaces that follow it on its justified line.
pub struct MarkedWord {
    pub chars: Vec<char>,
    pub actual_chars: Vec<char>,
    pub padding: usize,
}

/// One justified line: an ordered list of words.
pub struct MarkedLine {
    pub words: Vec<MarkedWord>,
}

/// A justified document: lines of words, balanced to one alignment width.
pub struct MarkedQuote {
    pub alignment: usize,
    pub lines: Vec<MarkedLine>,
}

/// What a word holds, padding aside: its expected and its typed text.
pub open spec fn word_content(w: MarkedWord) -> (Seq<char>, Seq<char>) {
    (w.chars@, w.actual_chars@)
}

/// The contents of a list of words, in order.
pub open spec fn words_content(ws: Seq<MarkedWord>) -> Seq<(Seq<char>, Seq<char>)> {
    ws.map_values(|w: MarkedWord| word_content(w))
}

/// The contents of a line's words, in order.
pub open spec fn line_content(l: MarkedLine) -> Seq<(Seq<char>, Seq<char>)> {
    words_content(l.words@)
}

/// Everything observable about a word: expected text, typed text, padding.
pub open spec fn word_view(w: MarkedWord) -> (Seq<char>, Seq<char>, nat) {
    (w.chars@, w.actual_chars@, w.padding as nat)
}

/// Everything observable about a line.
pub open spec fn line_view(l: MarkedLine) -> Seq<(Seq<char>, Seq<char>, nat)> {
    l.words@.map_values(|w: MarkedWord| word_view(w))
}

/// Everything observable about a document's lines.
pub open spec fn doc_view(d: MarkedQuote) -> Seq<Seq<(Seq<char>, Seq<char>, nat)>> {
    d.lines@.map_values(|l: MarkedLine| line_view(l))
}

/// The screen room a word list asks for: cell widths plus one separator each.
pub open spec fn content_cost(s: Seq<(Seq<char>, Seq<char>)>) -> nat {
    widths_sum(s) + s.len()
}

/// The contents of the words of a list of lines, in reading order.
pub open spec fn lines_content(ls: Seq<MarkedLine>) -> Seq<(Seq<char>, Seq<char>)> {
    ls.map_values(|l: MarkedLine| line_content(l)).flatten()
}

/// The contents of all words of the document, in reading order.
pub open spec fn doc_content(d: MarkedQuote) -> Seq<(Seq<char>, Seq<char>)> {
    lines_content(d.lines@)
}

/// The contents that a list of words takes before anything is typed.
pub open spec fn fresh_content(ws: Seq<Seq<char>>) -> Seq<(Seq<char>, Seq<char>)> {
    ws.map_values(|w: Seq<char>| (w, Seq::<char>::empty()))
}

/// The expected texts of all words of the document, in reading order.
pub open spec fn doc_words(d: MarkedQuote) -> Seq<Seq<char>> {
    doc_content(d).map_values(|c: (Seq<char>, Seq<char>)| c.0)
}

/// The width of a word's cell before padding: the wider of expected and typed.
pub open spec fn content_width(c: (Seq<char>, Seq<char>)) -> nat {
    if c.0.len() >= c.1.len() {
        c.0.len()
    } else {
        c.1.len()
    }
}

/// The sum of the cell widths of `s`.
pub open spec fn widths_sum(s: Seq<(Seq<char>, Seq<char>)>) -> nat
    decreases s.len(),
{
    if s.len() == 0 {
        0
    } else {
        content_width(s[0]) + widths_sum(s.drop_first())
    }
}

/// The least width a word list can be drawn in: cell widths plus one
/// mandatory space between neighbouring words.
pub open spec fn content_minimal_len(s: Seq<(Seq<char>, Seq<char>)>) -> nat {
    if s.len() == 0 {
        0
    } else {
        (widths_sum(s) + s.len() - 1) as nat
    }
}

/// The least width the line can be drawn in.
pub open spec fn spec_minimal_len(l: MarkedLine) -> nat {
    content_minimal_len(line_content(l))
}

/// The sum of the paddings of `ws`.
pub open spec fn padding_sum(ws: Seq<MarkedWord>) -> nat
    decreases ws.len(),
{
    if ws.len() == 0 {
        0
    } else {
        ws[0].padding as nat + padding_sum(ws.drop_first())
    }
}

/// The justification accumulator after `k` shares of the slack, rounded to
/// the nearest integer: round(k * slack / gaps).
pub open spec fn acc_round(k: int, slack: int, gaps: int) -> int {
    (2 * k * slack + gaps) / (2 * gaps)
}

/// The extra spaces `balance` puts after the word at index `i`.
pub open spec fn balanced_padding(i: int, slack: int, gaps: int) -> int {
    acc_round(i + 1, slack, gaps) - acc_round(i, slack, gaps)
}

/// A line whose paddings are exactly what a successful `balance` to width
/// `alignment` assigns.
pub open spec fn line_is_balanced(l: MarkedLine, alignment: nat) -> bool {
    let n = l.words@.len() as int;
    if n < 2 {
        forall|i: int| 0 <= i < n ==> (#[trigger] l.words@[i]).padding == 0
    } else {
        &&& spec_minimal_len(l) <= alignment
        &&& forall|i: int|
            0 <= i < n ==> (#[trigger] l.words@[i]).padding == balanced_padding(
                i,
                alignment - spec_minimal_len(l),
                n - 1,
            )
    }
}

/// Splitting a sequence splits its width sum.
pub proof fn lemma_widths_sum_concat(a: Seq<(Seq<char>, Seq<char>)>, b: Seq<(Seq<char>, Seq<char>)>)
    ensures
        widths_sum(a + b) == widths_sum(a) + widths_sum(b),
    decreases a.len(),
{
    if a.len() == 0 {
        assert(a + b =~= b);
    } else {
        assert((a + b).drop_first() =~= a.drop_first() + b);
        lemma_widths_sum_concat(a.drop_first(), b);
    }
}

/// Appending one word adds its cell width to the width sum.
pub proof fn lemma_widths_sum_push(s: Seq<(Seq<char>, Seq<char>)>, c: (Seq<char>, Seq<char>))
    ensures
        widths_sum(s.push(c)) == widths_sum(s) + content_width(c),
{
    assert(s.push(c) =~= s + seq![c]);
    lemma_widths_sum_concat(s, seq![c]);
    assert(widths_sum(seq![c]) == content_width(c)) by {
        assert(widths_sum(Seq::<(Seq<char>, Seq<char>)>::empty()) == 0);
        assert(seq![c].drop_first() =~= Seq::<(Seq<char>, Seq<char>)>::empty());
    }
}

/// Closing a line appends its contents to those of the closed lines.
pub proof fn lemma_lines_content_push(ls: Seq<MarkedLine>, l: MarkedLine)
    ensures
        lines_content(ls.push(l)) == lines_content(ls) + line_content(l),
{
    let f = |x: MarkedLine| line_content(x);
    assert(ls.push(l).map_values(f) =~= ls.map_values(f).push(line_content(l)));
    ls.map_values(f).lemma_flatten_push(line_content(l));
}

/// Splitting a list of lines splits the contents of its words.
pub proof fn lemma_lines_content_concat(a: Seq<MarkedLine>, b: Seq<MarkedLine>)
    ensures
        lines_content(a + b) == lines_content(a) + lines_content(b),
{
    let f = |x: MarkedLine| line_content(x);
    assert((a + b).map_values(f) =~= a.map_values(f) + b.map_values(f));
    vstd::seq_lib::lemma_flatten_concat(a.map_values(f), b.map_values(f));
}

/// A single line's worth of content.
pub proof fn lemma_lines_content_singleton(l: MarkedLine)
    ensures
        lines_content(seq![l]) == line_content(l),
{
    let f = |x: MarkedLine| line_content(x);
    assert(seq![l].map_values(f) =~= seq![line_content(l)]);
    seq![line_content(l)].lemma_flatten_singleton();
}

/// No single gap of a balanced line exceeds the whole slack plus one.
pub proof fn lemma_balanced_padding_bound(l: MarkedLine, alignment: nat)
    requires
        line_is_balanced(l, alignment),
    ensures
        forall|i: int|
            0 <= i < l.words@.len() ==> (#[trigger] l.words@[i]).padding <= alignment + 1,
{
    let n = l.words@.len() as int;
    if n >= 2 {
        let slack = alignment - spec_minimal_len(l);
        assert forall|i: int| 0 <= i < n implies (#[trigger] l.words@[i]).padding <= alignment
            + 1 by {
            lemma_acc_round_step(i, slack, n - 1);
        }
    }
}

/// Lines that look the same hold the same words.
pub proof fn lemma_view_eq_content(a: MarkedLine, b: MarkedLine)
    requires
        line_view(a) == line_view(b),
    ensures
        line_content(a) == line_content(b),
{
    assert(line_view(a).len() == a.words@.len());
    assert(line_view(b).len() == b.words@.len());
    assert forall|t: int| 0 <= t < a.words@.len() implies line_content(a)[t] == line_content(
        b,
    )[t] by {
        assert(line_view(a)[t] == line_view(b)[t]);
        assert(word_view(a.words@[t]) == word_view(b.words@[t]));
        assert(a.words@[t].chars@ == b.words@[t].chars@);
        assert(a.words@[t].actual_chars@ == b.words@[t].actual_chars@);
    }
    assert(line_content(a) =~= line_content(b));
}

/// Two balanced lines holding the same words look the same.
pub proof fn lemma_balanced_views_equal(a: MarkedLine, b: MarkedLine, alignment: nat)
    requires
        line_content(a) == line_content(b),
        line_is_balanced(a, alignment),
        line_is_balanced(b, alignment),
    ensures
        line_view(a) == line_view(b),
{
    assert(a.words@.len() == line_content(a).len());
    assert(b.words@.len() == line_content(b).len());
    assert forall|i: int| 0 <= i < a.words@.len() implies line_view(a)[i] == line_view(b)[i] by {
        assert(line_content(a)[i] == line_content(b)[i]);
        assert(word_content(a.words@[i]) == word_content(b.words@[i]));
        assert(a.words@[i].padding == b.words@[i].padding);
    }
    assert(line_view(a) =~= line_view(b));
}

/// Splitting a word list splits its padding sum.
pub proof fn lemma_padding_sum_concat(a: Seq<MarkedWord>, b: Seq<MarkedWord>)
    ensures
        padding_sum(a + b) == padding_sum(a) + padding_sum(b),
    decreases a.len(),
{
    if a.len() == 0 {
        assert(a + b =~= b);
    } else {
        assert((a + b).drop_first() =~= a.drop_first() + b);
        lemma_padding_sum_concat(a.drop_first(), b);
    }
}

proof fn lemma_acc_round_base(slack: int, gaps: int)
    requires
        0 <= slack,
        1 <= gaps,
    ensures
        acc_round(0, slack, gaps) == 0,
{
    assert(2 * 0 * slack + gaps == gaps) by (nonlinear_arith);
    lemma_fundamental_div_mod_converse(gaps, 2 * gaps, 0, gaps);
}

proof fn lemma_acc_round_step(k: int, slack: int, gaps: int)
    requires
        0 <= k,
        0 <= slack,
        1 <= gaps,
    ensures
        acc_round(k, slack, gaps) <= acc_round(k + 1, slack, gaps),
        acc_round(k + 1, slack, gaps) - acc_round(k, slack, gaps) <= slack + 1,
{
    let d = 2 * gaps;
    let a = 2 * k * slack + gaps;
    let b = 2 * (k + 1) * slack + gaps;
    assert(2 * (k + 1) * slack == 2 * k * slack + 2 * slack) by (nonlinear_arith);
    lemma_div_is_ordered(a, b, d);
    lemma_fundamental_div_mod(a, d);
    lemma_fundamental_div_mod(b, d);
    lemma_mod_division_less_than_divisor(a, d);
    lemma_mod_division_less_than_divisor(b, d);
    let q1 = a / d;
    let r1 = a % d;
    let q2 = b / d;
    let r2 = b % d;
    assert(d * (q2 - q1) == 2 * slack + r1 - r2) by (nonlinear_arith)
        requires
            a == d * q1 + r1,
            b == d * q2 + r2,
            b == a + 2 * slack,
    ;
    if q2 - q1 > slack + 1 {
        assert(false) by (nonlinear_arith)
            requires
                d * (q2 - q1) == 2 * slack + r1 - r2,
                q2 - q1 >= slack + 2,
                d >= 2,
                slack >= 0,
                0 <= r1 < d,
                0 <= r2 < d,
        ;
    }
}

proof fn lemma_acc_round_full(slack: int, gaps: int)
    requires
        0 <= slack,
        1 <= gaps,
    ensures
        acc_round(gaps, slack, gaps) == slack,
{
    assert(2 * gaps * slack + gaps == slack * (2 * gaps) + gaps) by (nonlinear_arith);
    lemma_fundamental_div_mod_converse(2 * gaps * slack + gaps, 2 * gaps, slack, gaps);
}

proof fn lemma_balanced_prefix_sum(ws: Seq<MarkedWord>, slack: int, gaps: int, k: int)
    requires
        0 <= slack,
        1 <= gaps,
        0 <= k <= ws.len(),
        forall|i: int|
            0 <= i < ws.len() ==> (#[trigger] ws[i]).padding == balanced_padding(i, slack, gaps),
    ensures
        padding_sum(ws.subrange(0, k)) == acc_round(k, slack, gaps),
    decreases k,
{
    if k == 0 {
        assert(ws.subrange(0, 0) =~= Seq::<MarkedWord>::empty());
        lemma_acc_round_base(slack, gaps);
    } else {
        lemma_balanced_prefix_sum(ws, slack, gaps, k - 1);
        assert(ws.subrange(0, k) =~= ws.subrange(0, k - 1) + seq![ws[k - 1]]);
        lemma_padding_sum_concat(ws.subrange(0, k - 1), seq![ws[k - 1]]);
        assert(padding_sum(seq![ws[k - 1]]) == ws[k - 1].padding) by {
            assert(padding_sum(Seq::<MarkedWord>::empty()) == 0);
            assert(seq![ws[k - 1]].drop_first() =~= Seq::<MarkedWord>::empty());
        }
        lemma_acc_round_step(k - 1, slack, gaps);
    }
}

/// On a line of two or more words balanced to width `alignment`, the paddings
/// of the internal gaps (every word but the last) fill the width exactly:
/// their sum plus the line's minimal length is the alignment width.
pub proof fn lemma_balanced_sum(l: MarkedLine, alignment: nat)
    requires
        l.words@.len() >= 2,
        line_is_balanced(l, alignment),
    ensures
        padding_sum(l.words@.subrange(0, l.words@.len() - 1)) + spec_minimal_len(l) == alignment,
{
    let n = l.words@.len() as int;
    let slack = alignment - spec_minimal_len(l);
    lemma_balanced_prefix_sum(l.words@, slack, n - 1, n - 1);
    lemma_acc_round_full(slack, n - 1);
}

impl MarkedWord {
    /// A fresh word with nothing typed and no padding.
    pub fn new(data: &str) -> (w: MarkedWord)
        ensures
            w.chars@ == data@,
            w.actual_chars@ == Seq::<char>::empty(),
            w.padding == 0,
    {
        MarkedWord { chars: crate::text::str_chars(data), actual_chars: Vec::new(), padding: 0 }
    }

    /// The rendered width of this word's cell: the wider of the expected and
    /// the typed text, plus the padding that follows the word.
    pub fn len(&self) -> (r: usize)
        requires
            content_width(word_content(*self)) + self.padding <= usize::MAX,
        ensures
            r == content_width(word_content(*self)) + self.padding,
    {
        let w = if self.chars.len() >= self.actual_chars.len() {
            self.chars.len()
        } else {
            self.actual_chars.len()
        };
        w + self.padding
    }
}

impl MarkedLine {
    /// An empty line.
    pub fn new() -> (l: MarkedLine)
        ensures
            l.words@ == Seq::<MarkedWord>::empty(),
    {
        MarkedLine { words: Vec::new() }
    }

    /// The least width this line can be drawn in: the cell widths plus one
    /// mandatory space between neighbouring words.
    pub fn minimal_len(&self) -> (m: usize)
        requires
            spec_minimal_len(*self) <= usize::MAX,
        ensures
            m == spec_minimal_len(*self),
    {
        let n = self.words.len();
        if n == 0 {
            return 0;
        }
        let ghost cs = line_content(*self);
        let mut sum: usize = 0;
        let mut i: usize = 0;
        proof {
            assert(cs.subrange(0, 0) =~= Seq::<(Seq<char>, Seq<char>)>::empty());
        }
        while i < n
            invariant
                i <= n,
                n == self.words@.len(),
                n >= 1,
                cs == line_content(*self),
                spec_minimal_len(*self) <= usize::MAX,
                sum == widths_sum(cs.subrange(0, i as int)),
            decreases n - i,
        {
            let word = &self.words[i];
            let w = if word.chars.len() >= word.actual_chars.len() {
                word.chars.len()
            } else {
                word.actual_chars.len()
            };
            proof {
                assert(cs.subrange(0, i + 1) =~= cs.subrange(0, i as int) + seq![cs[i as int]]);
                lemma_widths_sum_concat(cs.subrange(0, i as int), seq![cs[i as int]]);
                assert(widths_sum(seq![cs[i as int]]) == content_width(cs[i as int])) by {
                    assert(widths_sum(Seq::<(Seq<char>, Seq<char>)>::empty()) == 0);
                    assert(seq![cs[i as int]].drop_first() =~= Seq::<(
                        Seq<char>,
                        Seq<char>,
                    )>::empty());
                }
                assert(cs.subrange(0, n as int) =~= cs);
                assert(cs.subrange(0, i + 1) + cs.subrange(i + 1, n as int) =~= cs);
                lemma_widths_sum_concat(cs.subrange(0, i + 1), cs.subrange(i + 1, n as int));
                assert(w == content_width(cs[i as int]));
            }
            sum = sum + w;
            i = i + 1;
        }
        proof {
            assert(cs.subrange(0, n as int) =~= cs);
        }
        sum + (n - 1)
    }

    /// Justifies the line to `alignment` columns by distributing the slack as
    /// accumulated-fraction-rounded padding; fails without touching anything
    /// when the words no longer fit.
    pub fn balance(&mut self, alignment: usize) -> (r: Option<()>)
        requires
            spec_minimal_len(*old(self)) <= usize::MAX,
            alignment <= usize::MAX / 2,
        ensures
            final(self).words@.len() == old(self).words@.len(),
            line_content(*final(self)) == line_content(*old(self)),
            r is Some <==> (old(self).words@.len() < 2 || spec_minimal_len(*old(self))
                <= alignment),
            r is Some ==> line_is_balanced(*final(self), alignment as nat),
            r is None ==> *final(self) == *old(self),
    {
        let n = self.words.len();
        if n < 2 {
            if n == 1 {
                self.words[0].padding = 0;
            }
            proof {
                assert forall|j: int| 0 <= j < line_content(*self).len() implies line_content(
                    *self,
                )[j] == line_content(*old(self))[j] by {
                    assert(word_content(self.words@[j]) == word_content(old(self).words@[j]));
                }
                assert(line_content(*self) =~= line_content(*old(self)));
            }
            return Some(());
        }
        let m = self.minimal_len();
        if alignment < m {
            return None;
        }
        let slack: u128 = (alignment - m) as u128;
        let gaps: u128 = (n - 1) as u128;
        let denom: u128 = 2 * gaps;
        let ghost s = slack as int;
        let ghost g = gaps as int;
        let mut prev: u128 = 0;
        proof {
            lemma_acc_round_base(s, g);
            assert(spec_minimal_len(*old(self)) >= n - 1);
        }
        let mut i: usize = 0;
        while i < n
            invariant
                i <= n,
                n == self.words@.len(),
                n == old(self).words@.len(),
                2 <= n,
                line_content(*self) == line_content(*old(self)),
                s == slack as int,
                g == gaps as int,
                gaps == n - 1,
                denom == 2 * gaps,
                slack <= usize::MAX / 2,
                n <= usize::MAX / 2 + 1,
                prev == acc_round(i as int, s, g),
                forall|j: int|
                    0 <= j < i ==> (#[trigger] self.words@[j]).padding == balanced_padding(
                        j,
                        s,
                        g,
                    ),
                forall|j: int| i <= j < n ==> self.words@[j] == old(self).words@[j],
            decreases n - i,
        {
            proof {
                lemma_acc_round_step(i as int, s, g);
                assert((2 * ((i as u128) + 1)) as int * (slack as int) <= 0x1_0000_0000_0000_0000
                    * 0x8000_0000_0000_0000) by (nonlinear_arith)
                    requires
                        0 <= (i as u128) + 1 <= 0x8000_0000_0000_0000,
                        0 <= slack <= 0x7FFF_FFFF_FFFF_FFFF,
                ;
            }
            let num: u128 = 2 * ((i as u128) + 1) * slack + gaps;
            let cur: u128 = num / denom;
            proof {
                assert(cur as int == acc_round(i as int + 1, s, g));
            }
            let pad128: u128 = cur - prev;
            let pad: usize = pad128 as usize;
            let ghost before = *self;
            self.words[i].padding = pad;
            proof {
                assert forall|j: int| 0 <= j < line_content(*self).len() implies line_content(
                    *self,
                )[j] == line_content(before)[j] by {
                    assert(word_content(self.words@[j]) == word_content(before.words@[j]));
                }
                assert(line_content(*self) =~= line_content(before));
            }
            prev = cur;
            i = i + 1;
        }
        proof {
            assert(widths_sum(line_content(*self)) == widths_sum(line_content(*old(self))));
            assert(spec_minimal_len(*self) == spec_minimal_len(*old(self)));
            assert(line_is_balanced(*self, alignment as nat));
        }
        Some(())
    }
}

/// The width a given line is justified to when the first line carries a
/// leading indent: the indent is taken out of the first line's room.
pub open spec fn line_limit(alignment: nat, offset: nat, i: int) -> nat {
    if i == 0 {
        (alignment - offset) as nat
    } else {
        alignment
    }
}

impl MarkedQuote {
    /// Greedily wraps the quote's words, in order, into lines, then justifies
    /// every line; the first line's room is shortened by `offset` columns.
    fn wrap_words(quote: &Quote, alignment: usize, offset: usize) -> (d: MarkedQuote)
        requires
            alignment <= usize::MAX / 2,
            offset <= alignment,
        ensures
            d.alignment == alignment,
            doc_content(d) == fresh_content(crate::quote::words_view(quote)),
            doc_words(d) == crate::quote::words_view(quote),
            d.lines@.len() >= 1,
            forall|i: int|
                0 <= i < d.lines@.len() ==> line_is_balanced(
                    #[trigger] d.lines@[i],
                    line_limit(alignment as nat, offset as nat, i),
                ),
            forall|i: int| 1 <= i < d.lines@.len() ==> (#[trigger] d.lines@[i]).words@.len() >= 1,
            quote.words@.len() == 0 ==> d.lines@.len() == 1 && d.lines@[0].words@.len() == 0,
            (quote.words@.len() > 0 && quote.words@[0]@.len() + offset <= alignment)
                ==> d.lines@[0].words@.len() >= 1,
    {
        let ghost sv = crate::quote::words_view(quote);
        let nw = quote.words.len();
        let mut lines: Vec<MarkedLine> = Vec::new();
        let mut line: MarkedLine = MarkedLine::new();
        let mut curr_len: usize = 0;
        let mut j: usize = 0;
        proof {
            assert(line_content(line) =~= Seq::<(Seq<char>, Seq<char>)>::empty());
            assert(lines@.map_values(|x: MarkedLine| line_content(x)) =~= Seq::<
                Seq<(Seq<char>, Seq<char>)>,
            >::empty());
            assert(lines_content(lines@) =~= Seq::<(Seq<char>, Seq<char>)>::empty());
            assert(fresh_content(sv.subrange(0, 0)) =~= Seq::<(Seq<char>, Seq<char>)>::empty());
            assert(lines_content(lines@) + line_content(line) =~= fresh_content(
                sv.subrange(0, 0),
            ));
        }
        while j < nw
            invariant
                j <= nw,
                nw == quote.words@.len(),
                sv == crate::quote::words_view(quote),
                alignment <= usize::MAX / 2,
                offset <= alignment,
                lines_content(lines@) + line_content(line) == fresh_content(
                    sv.subrange(0, j as int),
                ),
                curr_len == widths_sum(line_content(line)),
                spec_minimal_len(line) <= usize::MAX,
                line.words@.len() >= 2 ==> spec_minimal_len(line) <= line_limit(
                    alignment as nat,
                    offset as nat,
                    lines@.len() as int,
                ),
                forall|i: int|
                    0 <= i < lines@.len() ==> line_is_balanced(
                        #[trigger] lines@[i],
                        line_limit(alignment as nat, offset as nat, i),
                    ),
                forall|i: int| 1 <= i < lines@.len() ==> (#[trigger] lines@[i]).words@.len() >= 1,
                j > 0 ==> line.words@.len() >= 1,
                lines@.len() > 0 ==> j > 0,
                j > 0 ==> ((lines@.len() > 0 && lines@[0].words@.len() == 0) <==> sv[0].len()
                    + offset > alignment),
            decreases nw - j,
        {
            let word_chars = crate::text::str_chars(quote.words[j].as_str());
            let wlen = word_chars.len();
            let cnt = line.words.len();
            let limit = if lines.len() == 0 {
                alignment - offset
            } else {
                alignment
            };
            proof {
                assert(sv[j as int] == quote.words@[j as int]@);
                assert(limit == line_limit(alignment as nat, offset as nat, lines@.len() as int));
            }
            let would_exceed = curr_len > limit || cnt > limit - curr_len || wlen > limit
                - curr_len - cnt;
            proof {
                assert(would_exceed <==> curr_len + cnt + wlen > limit);
            }
            if would_exceed {
                let r = line.balance(limit);
                proof {
                    assert(r is Some);
                    lemma_lines_content_push(lines@, line);
                }
                lines.push(line);
                line = MarkedLine::new();
                curr_len = 0;
                proof {
                    assert(line_content(line) =~= Seq::<(Seq<char>, Seq<char>)>::empty());
                }
            }
            let ghost content_before = line_content(line);
            let w = MarkedWord { chars: word_chars, actual_chars: Vec::new(), padding: 0 };
            proof {
                lemma_widths_sum_push(content_before, (sv[j as int], Seq::<char>::empty()));
            }
            line.words.push(w);
            proof {
                assert(line_content(line) =~= content_before.push(
                    (sv[j as int], Seq::<char>::empty()),
                ));
                assert(fresh_content(sv.subrange(0, j + 1)) =~= fresh_content(
                    sv.subrange(0, j as int),
                ).push((sv[j as int], Seq::<char>::empty())));
                assert(lines_content(lines@) + line_content(line) =~= fresh_content(
                    sv.subrange(0, j + 1),
                ));
            }
            curr_len = curr_len + wlen;
            j = j + 1;
        }
        let last_limit = if lines.len() == 0 {
            alignment - offset
        } else {
            alignment
        };
        let r = line.balance(last_limit);
        proof {
            assert(r is Some);
            lemma_lines_content_push(lines@, line);
            assert(sv.subrange(0, nw as int) =~= sv);
        }
        lines.push(line);
        let d = MarkedQuote { alignment, lines };
        proof {
            assert(doc_words(d) =~= sv);
        }
        d
    }

    /// Greedily wraps the quote's words, in order, into lines of width
    /// `alignment`, then justifies every line.
    pub fn new(quote: &Quote, alignment: usize) -> (d: MarkedQuote)
        requires
            alignment <= usize::MAX / 2,
        ensures
            d.alignment == alignment,
            doc_content(d) == fresh_content(crate::quote::words_view(quote)),
            doc_words(d) == crate::quote::words_view(quote),
            d.lines@.len() >= 1,
            forall|i: int|
                0 <= i < d.lines@.len() ==> line_is_balanced(
                    #[trigger] d.lines@[i],
                    alignment as nat,
                ),
            forall|i: int| 1 <= i < d.lines@.len() ==> (#[trigger] d.lines@[i]).words@.len() >= 1,
            quote.words@.len() == 0 ==> d.lines@.len() == 1 && d.lines@[0].words@.len() == 0,
            (quote.words@.len() > 0 && quote.words@[0]@.len() <= alignment)
                ==> d.lines@[0].words@.len() >= 1,
    {
        let d = Self::wrap_words(quote, alignment, 0);
        proof {
            assert forall|i: int| 0 <= i < d.lines@.len() implies line_is_balanced(
                #[trigger] d.lines@[i],
                alignment as nat,
            ) by {
                assert(line_limit(alignment as nat, 0, i) == alignment as nat);
            }
        }
        d
    }

    /// Like `new`, but the first line is indented by `leading_offset` columns:
    /// its words get that much less room and are justified into it.
    pub fn new_with_indent(quote: &Quote, alignment: usize, leading_offset: usize) -> (d:
        MarkedQuote)
        requires
            alignment <= usize::MAX / 2,
            leading_offset <= alignment,
        ensures
            d.alignment == alignment,
            doc_content(d) == fresh_content(crate::quote::words_view(quote)),
            doc_words(d) == crate::quote::words_view(quote),
            d.lines@.len() >= 1,
            forall|i: int|
                0 <= i < d.lines@.len() ==> line_is_balanced(
                    #[trigger] d.lines@[i],
                    line_limit(alignment as nat, leading_offset as nat, i),
                ),
            forall|i: int| 1 <= i < d.lines@.len() ==> (#[trigger] d.lines@[i]).words@.len() >= 1,
            quote.words@.len() == 0 ==> d.lines@.len() == 1 && d.lines@[0].words@.len() == 0,
            (quote.words@.len() > 0 && quote.words@[0]@.len() + leading_offset <= alignment)
                ==> d.lines@[0].words@.len() >= 1,
    {
        Self::wrap_words(quote, alignment, leading_offset)
    }

    /// Re-justifies the document from line `first_affected` on. An over-full
    /// line sheds trailing words, in order, onto the following line, cascading
    /// line by line; a new line is appended when the last line still
    /// overflows. Word order and word contents are untouched; only line
    /// membership and padding change. Returns the index of the last line
    /// touched, so the caller repaints exactly `first_affected..=last`; when
    /// line `first_affected` is already balanced nothing changes and
    /// `first_affected` itself comes back.
    #[verifier::loop_isolation(false)]
    #[verifier::rlimit(100)]
    pub fn rebuild(&mut self, first_affected: usize) -> (last: usize)
        requires
            old(self).alignment <= usize::MAX / 2,
            content_cost(doc_content(*old(self))) <= usize::MAX,
        ensures
            final(self).alignment == old(self).alignment,
            doc_content(*final(self)) == doc_content(*old(self)),
            first_affected >= old(self).lines@.len() ==> doc_view(*final(self)) == doc_view(
                *old(self),
            ) && last == first_affected,
            first_affected < old(self).lines@.len() ==> first_affected <= last < final(self).lines@.len(),
            old(self).lines@.len() <= final(self).lines@.len() <= old(self).lines@.len() + 1,
            final(self).lines@.len() > old(self).lines@.len() ==> last + 1 == final(self).lines@.len(),
            forall|j: int|
                0 <= j < first_affected && j < final(self).lines@.len() && j < old(self).lines@.len() ==> line_view(#[trigger] final(self).lines@[j]) == line_view(
                    old(self).lines@[j],
                ),
            forall|j: int|
                last < j < final(self).lines@.len() && j < old(self).lines@.len() ==> line_view(
                    #[trigger] final(self).lines@[j],
                ) == line_view(old(self).lines@[j]),
            forall|j: int|
                first_affected <= j <= last && j < old(self).lines@.len() ==> line_is_balanced(
                    #[trigger] final(self).lines@[j],
                    old(self).alignment as nat,
                ),
            final(self).lines@.len() > old(self).lines@.len() ==> (line_is_balanced(
                final(self).lines@[last as int],
                old(self).alignment as nat,
            ) || (spec_minimal_len(final(self).lines@[last as int]) > old(self).alignment && final(self).lines@[last as int].words@.len() >= 2 && (forall|k: int|
                0 <= k < final(self).lines@[last as int].words@.len() ==> (#[trigger] final(self).lines@[last as int].words@[k]).padding == 0))),
            forall|j: int|
                0 <= j < final(self).lines@.len() ==> ((#[trigger] final(self).lines@[j]).words@.len() >= 1 || (j < old(self).lines@.len() && old(self).lines@[j].words@.len() == 0)),
            first_affected < old(self).lines@.len() && line_is_balanced(
                old(self).lines@[first_affected as int],
                old(self).alignment as nat,
            ) ==> last == first_affected && doc_view(*final(self)) == doc_view(*old(self)),
    {
        let ghost ol = old(self).lines@;
        let ghost oal = old(self).alignment as nat;
        let al = self.alignment;
        if first_affected >= self.lines.len() {
            return first_affected;
        }
        let llen = self.lines.len();
        let ghost was_balanced = line_is_balanced(ol[first_affected as int], oal);
        let mut i: usize = first_affected;
        let mut carry: Vec<MarkedWord> = Vec::new();
        proof {
            assert(ol.subrange(0, first_affected as int) + ol.subrange(
                first_affected as int,
                llen as int,
            ) =~= ol);
            lemma_lines_content_concat(
                ol.subrange(0, first_affected as int),
                ol.subrange(first_affected as int, llen as int),
            );
            lemma_widths_sum_concat(
                lines_content(ol.subrange(0, first_affected as int)),
                lines_content(ol.subrange(first_affected as int, llen as int)),
            );
            assert(words_content(carry@) =~= Seq::<(Seq<char>, Seq<char>)>::empty());
            assert(self.lines@.subrange(first_affected as int, first_affected as int) =~= Seq::<
                MarkedLine,
            >::empty());
            assert(ol.subrange(first_affected as int, first_affected as int) =~= Seq::<
                MarkedLine,
            >::empty());
            assert(Seq::<MarkedLine>::empty().map_values(|x: MarkedLine| line_content(x)) =~= Seq::<
                Seq<(Seq<char>, Seq<char>)>,
            >::empty());
            assert(lines_content(Seq::<MarkedLine>::empty()) =~= Seq::<(Seq<char>, Seq<char>)>::empty());
            assert(widths_sum(Seq::<(Seq<char>, Seq<char>)>::empty()) == 0);
        }
        loop
            invariant
                self.alignment == al,
                self.lines@.len() == llen,
                first_affected <= i < llen,
                forall|j: int| 0 <= j < first_affected ==> #[trigger] self.lines@[j] == ol[j],
                forall|j: int| i <= j < llen ==> #[trigger] self.lines@[j] == ol[j],
                forall|j: int|
                    first_affected <= j < i ==> line_is_balanced(#[trigger] self.lines@[j], oal),
                forall|j: int|
                    first_affected <= j < i ==> ((#[trigger] self.lines@[j]).words@.len() >= 1
                        || ol[j].words@.len() == 0),
                lines_content(self.lines@.subrange(first_affected as int, i as int))
                    + words_content(carry@) == lines_content(
                    ol.subrange(first_affected as int, i as int),
                ),
                content_cost(words_content(carry@)) + content_cost(
                    lines_content(ol.subrange(i as int, llen as int)),
                ) <= usize::MAX,
                i == first_affected ==> carry@.len() == 0,
                i > first_affected ==> carry@.len() >= 1,
                was_balanced ==> i == first_affected,
            decreases llen - i,
        {
            let ghost lines_head = self.lines@;
            let mut line = self.lines.remove(i);
            proof {
                assert(line == ol[i as int]);
            }
            let ghost carry_in = carry@;
            let mut merged = carry;
            carry = Vec::new();
            merged.append(&mut line.words);
            line.words = merged;
            let ghost merged_content = words_content(carry_in) + line_content(ol[i as int]);
            proof {
                assert(line.words@ =~= carry_in + ol[i as int].words@);
                assert(line_content(line) =~= merged_content);
                lemma_widths_sum_concat(words_content(carry_in), line_content(ol[i as int]));
                assert(ol.subrange(i as int, llen as int) =~= seq![ol[i as int]] + ol.subrange(
                    i as int + 1,
                    llen as int,
                ));
                lemma_lines_content_concat(
                    seq![ol[i as int]],
                    ol.subrange(i as int + 1, llen as int),
                );
                lemma_lines_content_singleton(ol[i as int]);
                lemma_widths_sum_concat(
                    line_content(ol[i as int]),
                    lines_content(ol.subrange(i as int + 1, llen as int)),
                );
                assert(content_cost(merged_content) + content_cost(
                    lines_content(ol.subrange(i as int + 1, llen as int)),
                ) <= usize::MAX);
                assert(words_content(carry@) =~= Seq::<(Seq<char>, Seq<char>)>::empty());
            }
            loop
                invariant
                    line_content(line) + words_content(carry@) == merged_content,
                    merged_content.len() > 0 ==> line.words@.len() >= 1,
                    (was_balanced && i == first_affected) ==> (carry@.len() == 0 && line_content(
                        line,
                    ) == line_content(ol[first_affected as int])),
                decreases line.words@.len(),
            {
                proof {
                    lemma_widths_sum_concat(line_content(line), words_content(carry@));
                    assert(content_cost(line_content(line)) <= content_cost(merged_content));
                }
                let r = line.balance(al);
                if r.is_some() {
                    break;
                }
                proof {
                    assert(line.words@.len() >= 2);
                }
                let w_opt = line.words.pop();
                let w = w_opt.unwrap();
                let ghost line_before = line_content(line).push(word_content(w));
                let ghost carry_before = carry@;
                carry.insert(0, w);
                proof {
                    assert(carry@ =~= seq![w] + carry_before);
                    assert(words_content(carry@) =~= seq![word_content(w)] + words_content(
                        carry_before,
                    ));
                    assert(line_content(line).push(word_content(w)) + words_content(carry_before)
                        =~= line_content(line) + words_content(carry@));
                    assert(line_before + words_content(carry_before) == merged_content);
                }
            }
            let ghost processed = line;
            self.lines.insert(i, line);
            proof {
                assert(self.lines@ =~= lines_head.update(i as int, processed));
                assert(self.lines@.subrange(first_affected as int, i as int) =~= lines_head.subrange(
                    first_affected as int,
                    i as int,
                ));
                assert(self.lines@.subrange(first_affected as int, i as int + 1) =~= lines_head.subrange(
                    first_affected as int,
                    i as int,
                ).push(processed));
                lemma_lines_content_push(
                    lines_head.subrange(first_affected as int, i as int),
                    processed,
                );
                assert(ol.subrange(first_affected as int, i as int + 1) =~= ol.subrange(
                    first_affected as int,
                    i as int,
                ).push(ol[i as int]));
                lemma_lines_content_push(ol.subrange(first_affected as int, i as int), ol[i as int]);
                lemma_widths_sum_concat(line_content(processed), words_content(carry@));
                assert(self.lines@[i as int] == processed);
                assert(merged_content.len() == carry_in.len() + ol[i as int].words@.len());
                if ol[i as int].words@.len() >= 1 {
                    assert(processed.words@.len() >= 1);
                }
            }
            if carry.is_empty() {
                proof {
                    assert(words_content(carry@) =~= Seq::<(Seq<char>, Seq<char>)>::empty());
                    assert(lines_content(self.lines@.subrange(first_affected as int, i as int + 1))
                        =~= lines_content(ol.subrange(first_affected as int, i as int + 1)));
                    lemma_doc_content_replaced(ol, self.lines@, first_affected as int, i as int + 1);
                    assert(doc_content(*self) == doc_content(*old(self)));
                    if was_balanced {
                        lemma_balanced_views_equal(processed, ol[first_affected as int], oal);
                        assert forall|j: int| 0 <= j < llen implies doc_view(*self)[j] == doc_view(
                            *old(self),
                        )[j] by {
                            if j != i {
                                assert(self.lines@[j] == ol[j]);
                            }
                        }
                        assert(doc_view(*self) =~= doc_view(*old(self)));
                    }
                }
                return i;
            }
            if i + 1 == llen {
                let ghost carry_exit = carry@;
                let mut nl = MarkedLine::new();
                nl.words = carry;
                proof {
                    assert(line_content(nl) =~= words_content(carry_exit));
                }
                let r2 = nl.balance(al);
                if r2.is_none() {
                    let ghost nl_before = nl;
                    let mut k: usize = 0;
                    let wcount = nl.words.len();
                    while k < wcount
                        invariant
                            k <= wcount,
                            wcount == nl.words@.len(),
                            nl.words@.len() == nl_before.words@.len(),
                            line_content(nl) == line_content(nl_before),
                            forall|t: int|
                                0 <= t < k ==> (#[trigger] nl.words@[t]).padding == 0,
                            forall|t: int| k <= t < wcount ==> nl.words@[t] == nl_before.words@[t],
                        decreases wcount - k,
                    {
                        let ghost before = nl;
                        nl.words[k].padding = 0;
                        proof {
                            assert forall|t: int|
                                0 <= t < line_content(nl).len() implies line_content(nl)[t]
                                == line_content(before)[t] by {
                                assert(word_content(nl.words@[t]) == word_content(before.words@[t]));
                            }
                            assert(line_content(nl) =~= line_content(before));
                        }
                        k = k + 1;
                    }
                }
                let ghost before_push = self.lines@;
                let ghost nlv = nl;
                proof {
                    assert(nlv.words@.len() >= 1);
                }
                self.lines.push(nl);
                proof {
                    assert(self.lines@ =~= before_push.push(nlv));
                    assert(self.lines@.subrange(first_affected as int, i as int + 1)
                        =~= before_push.subrange(first_affected as int, i as int + 1));
                    assert(self.lines@.subrange(0, first_affected as int) =~= before_push.subrange(
                        0,
                        first_affected as int,
                    ));
                    assert(self.lines@[llen as int] == nlv);
                    assert(line_content(nlv) == words_content(carry_exit));
                    assert(lines_content(self.lines@.subrange(first_affected as int, i as int + 1))
                        == lines_content(lines_head.subrange(first_affected as int, i as int))
                        + line_content(processed));
                    assert((lines_content(lines_head.subrange(first_affected as int, i as int))
                        + line_content(processed)) + words_content(carry_exit)
                        =~= lines_content(lines_head.subrange(first_affected as int, i as int)) + (
                    line_content(processed) + words_content(carry_exit)));
                    assert(line_content(processed) + words_content(carry_exit) == words_content(
                        carry_in,
                    ) + line_content(ol[i as int]));
                    assert(lines_content(lines_head.subrange(first_affected as int, i as int)) + (
                    words_content(carry_in) + line_content(ol[i as int])) =~= (lines_content(
                        lines_head.subrange(first_affected as int, i as int),
                    ) + words_content(carry_in)) + line_content(ol[i as int]));
                    assert(lines_content(self.lines@.subrange(first_affected as int, i as int + 1))
                        + line_content(nlv) =~= lines_content(
                        ol.subrange(first_affected as int, i as int + 1),
                    ));
                    assert(self.lines@.subrange(first_affected as int, llen as int + 1)
                        =~= self.lines@.subrange(first_affected as int, i as int + 1).push(nlv));
                    lemma_lines_content_push(
                        self.lines@.subrange(first_affected as int, i as int + 1),
                        nlv,
                    );
                    assert(ol.subrange(first_affected as int, llen as int) =~= ol.subrange(
                        first_affected as int,
                        i as int + 1,
                    ));
                    assert(lines_content(self.lines@.subrange(first_affected as int, llen as int + 1))
                        =~= lines_content(ol.subrange(first_affected as int, llen as int)));
                    lemma_doc_content_retail(ol, self.lines@, first_affected as int);
                    assert(doc_content(*self) == doc_content(*old(self)));
                    assert(!was_balanced);
                }
                return llen;
            }
            proof {
                assert(!was_balanced);
                assert((lines_content(lines_head.subrange(first_affected as int, i as int))
                    + line_content(processed)) + words_content(carry@) =~= lines_content(
                    lines_head.subrange(first_affected as int, i as int),
                ) + (line_content(processed) + words_content(carry@)));
                assert(line_content(processed) + words_content(carry@) == words_content(carry_in)
                    + line_content(ol[i as int]));
                assert(lines_content(lines_head.subrange(first_affected as int, i as int)) + (
                words_content(carry_in) + line_content(ol[i as int])) =~= (lines_content(
                    lines_head.subrange(first_affected as int, i as int),
                ) + words_content(carry_in)) + line_content(ol[i as int]));
                assert(lines_content(self.lines@.subrange(first_affected as int, i as int + 1))
                    + words_content(carry@) =~= lines_content(
                    ol.subrange(first_affected as int, i as int + 1),
                ));
                assert(ol.subrange(i as int + 1, llen as int) =~= seq![ol[i as int + 1]]
                    + ol.subrange(i as int + 2, llen as int));
                lemma_lines_content_concat(
                    seq![ol[i as int + 1]],
                    ol.subrange(i as int + 2, llen as int),
                );
                lemma_lines_content_singleton(ol[i as int + 1]);
            }
            i = i + 1;
        }
    }
}

/// A document whose only change lies between `first` and `upto`, where the
/// contents agree, holds the same words overall.
proof fn lemma_doc_content_replaced(a: Seq<MarkedLine>, b: Seq<MarkedLine>, first: int, upto: int)
    requires
        0 <= first <= upto <= a.len(),
        a.len() == b.len(),
        forall|j: int| 0 <= j < first ==> #[trigger] b[j] == a[j],
        forall|j: int| upto <= j < a.len() ==> #[trigger] b[j] == a[j],
        lines_content(b.subrange(first, upto)) == lines_content(a.subrange(first, upto)),
    ensures
        lines_content(b) == lines_content(a),
{
    let n = a.len() as int;
    assert(b.subrange(0, first) =~= a.subrange(0, first));
    assert(b.subrange(upto, n) =~= a.subrange(upto, n));
    assert(a =~= a.subrange(0, first) + a.subrange(first, upto) + a.subrange(upto, n));
    assert(b =~= b.subrange(0, first) + b.subrange(first, upto) + b.subrange(upto, n));
    lemma_lines_content_concat(a.subrange(0, first) + a.subrange(first, upto), a.subrange(upto, n));
    lemma_lines_content_concat(a.subrange(0, first), a.subrange(first, upto));
    lemma_lines_content_concat(b.subrange(0, first) + b.subrange(first, upto), b.subrange(upto, n));
    lemma_lines_content_concat(b.subrange(0, first), b.subrange(first, upto));
}

/// A document that only re-cut its tail from line `first` on, keeping the
/// same contents there, holds the same words overall.
proof fn lemma_doc_content_retail(a: Seq<MarkedLine>, b: Seq<MarkedLine>, first: int)
    requires
        0 <= first <= a.len(),
        first <= b.len(),
        forall|j: int| 0 <= j < first ==> #[trigger] b[j] == a[j],
        lines_content(b.subrange(first, b.len() as int)) == lines_content(
            a.subrange(first, a.len() as int),
        ),
    ensures
        lines_content(b) == lines_content(a),
{
    let n = a.len() as int;
    let m = b.len() as int;
    assert(b.subrange(0, first) =~= a.subrange(0, first));
    assert(a =~= a.subrange(0, first) + a.subrange(first, n));
    assert(b =~= b.subrange(0, first) + b.subrange(first, m));
    lemma_lines_content_concat(a.subrange(0, first), a.subrange(first, n));
    lemma_lines_content_concat(b.subrange(0, first), b.subrange(first, m));
}

/// Reflow moves words between lines but never reorders, drops or duplicates
/// one: two documents holding the same flattened word contents show the same
/// expected texts, in the same order, and so as the same multiset. Since
/// every reflow preserves the flattened contents, any chain of reflows
/// preserves the words.
pub proof fn lemma_same_content_same_words(a: MarkedQuote, b: MarkedQuote)
    requires
        doc_content(a) == doc_content(b),
    ensures
        doc_words(a) == doc_words(b),
        doc_words(a).to_multiset() == doc_words(b).to_multiset(),
{
}

} // verus!
