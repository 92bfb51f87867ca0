//! The reference text: a named, ordered list of words to be typed.

use vstd::prelude::*;

verus! {

/// A reference text, already split into words.
pub struct Quote {
    pub name: String,
    pub words: Vec<String>,
}

/// Whitespace, as the tokenizer understands it: the characters with the
/// Unicode `White_Space` property.
pub open spec fn is_space(c: char) -> bool {
    c == '\u{9}' || c == '\u{a}' || c == '\u{b}' || c == '\u{c}' || c == '\u{d}' || c == ' '
        || c == '\u{85}' || c == '\u{a0}' || c == '\u{1680}' || c == '\u{2000}' || c == '\u{2001}'
        || c == '\u{2002}' || c == '\u{2003}' || c == '\u{2004}' || c == '\u{2005}' || c
        == '\u{2006}' || c == '\u{2007}' || c == '\u{2008}' || c == '\u{2009}' || c == '\u{200a}'
        || c == '\u{2028}' || c == '\u{2029}' || c == '\u{202f}' || c == '\u{205f}' || c
        == '\u{3000}'
}

/// The words of `rest` given the pending word `cur` already read: maximal runs
/// of non-whitespace characters, empty runs discarded.
pub open spec fn tokenize_from(cur: Seq<char>, rest: Seq<char>) -> Seq<Seq<char>>
    decreases rest.len(),
{
    if rest.len() == 0 {
        if cur.len() == 0 {
            Seq::empty()
        } else {
            seq![cur]
        }
    } else if is_space(rest[0]) {
        if cur.len() == 0 {
            tokenize_from(Seq::empty(), rest.drop_first())
        } else {
            seq![cur] + tokenize_from(Seq::empty(), rest.drop_first())
        }
    } else {
        tokenize_from(cur.push(rest[0]), rest.drop_first())
    }
}

/// The whitespace-separated words of `s`.
pub open spec fn tokenize(s: Seq<char>) -> Seq<Seq<char>> {
    tokenize_from(Seq::empty(), s)
}

/// The views of a list of strings.
pub open spec fn strs_view(ws: Seq<String>) -> Seq<Seq<char>> {
    ws.map_values(|w: String| w@)
}

/// The words of `q` as character sequences.
pub open spec fn words_view(q: &Quote) -> Seq<Seq<char>> {
    strs_view(q.words@)
}

/// Whether `c` is whitespace in the tokenizer's sense.
pub fn is_space_char(c: char) -> (r: bool)
    ensures
        r == is_space(c),
{
    c == '\u{9}' || c == '\u{a}' || c == '\u{b}' || c == '\u{c}' || c == '\u{d}' || c == ' '
        || c == '\u{85}' || c == '\u{a0}' || c == '\u{1680}' || c == '\u{2000}' || c == '\u{2001}'
        || c == '\u{2002}' || c == '\u{2003}' || c == '\u{2004}' || c == '\u{2005}' || c
        == '\u{2006}' || c == '\u{2007}' || c == '\u{2008}' || c == '\u{2009}' || c == '\u{200a}'
        || c == '\u{2028}' || c == '\u{2029}' || c == '\u{202f}' || c == '\u{205f}' || c
        == '\u{3000}'
}

impl Quote {
    /// Splits `source` on whitespace into the words to be typed.
    pub fn new(name: &str, source: &str) -> (q: Quote)
        ensures
            q.name@ == name@,
            words_view(&q) == tokenize(source@),
    {
        let chars = crate::text::str_chars(source);
        let n = chars.len();
        let mut words: Vec<String> = Vec::new();
        let mut cur: Vec<char> = Vec::new();
        let mut i: usize = 0;
        proof {
            assert(strs_view(words@) =~= Seq::empty());
            assert(chars@.subrange(0, n as int) =~= source@);
        }
        while i < n
            invariant
                i <= n,
                n == chars@.len(),
                chars@ == source@,
                tokenize(source@) == strs_view(words@) + tokenize_from(
                    cur@,
                    chars@.subrange(i as int, n as int),
                ),
            decreases n - i,
        {
            let ghost rest = chars@.subrange(i as int, n as int);
            let c = chars[i];
            proof {
                assert(rest[0] == c);
                assert(rest.drop_first() =~= chars@.subrange(i as int + 1, n as int));
            }
            if is_space_char(c) {
                if cur.len() > 0 {
                    let w = crate::text::chars_to_string(&cur);
                    proof {
                        assert(strs_view(words@.push(w)) =~= strs_view(words@).push(cur@));
                        assert(strs_view(words@) + tokenize_from(cur@, rest) =~= strs_view(
                            words@.push(w),
                        ) + tokenize_from(Seq::empty(), rest.drop_first()));
                    }
                    words.push(w);
                    cur.clear();
                } else {
                    proof {
                        assert(cur@ =~= Seq::<char>::empty());
                        assert(tokenize_from(cur@, rest) == tokenize_from(
                            cur@,
                            rest.drop_first(),
                        ));
                    }
                }
            } else {
                proof {
                    assert(tokenize_from(cur@, rest) == tokenize_from(
                        cur@.push(c),
                        rest.drop_first(),
                    ));
                }
                cur.push(c);
            }
            i = i + 1;
        }
        proof {
            assert(chars@.subrange(n as int, n as int) =~= Seq::<char>::empty());
        }
        if cur.len() > 0 {
            let w = crate::text::chars_to_string(&cur);
            proof {
                assert(strs_view(words@.push(w)) =~= strs_view(words@).push(cur@));
                assert(strs_view(words@) + tokenize_from(cur@, Seq::empty()) =~= strs_view(
                    words@.push(w),
                ));
            }
            words.push(w);
        } else {
            proof {
                assert(strs_view(words@) + tokenize_from(cur@, Seq::empty()) =~= strs_view(
                    words@,
                ));
            }
        }
        Quote { name: name.to_owned(), words }
    }
}

} // verus!
