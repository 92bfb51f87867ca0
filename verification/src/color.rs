//! RGB colors and the terminal attribute sequences that select them.

use vstd::prelude::*;

verus! {

/// An RGB color; the renderer turns one into a terminal display attribute.
#[derive(Copy, Clone, PartialEq, Eq, Structural, Hash, Debug)]
pub struct Color {
    pub r: u8,
    pub g: u8,
    pub b: u8,
}

/// The decimal digit `d` as a character.
pub open spec fn digit_char(d: nat) -> char {
    if d == 0 {
        '0'
    } else if d == 1 {
        '1'
    } else if d == 2 {
        '2'
    } else if d == 3 {
        '3'
    } else if d == 4 {
        '4'
    } else if d == 5 {
        '5'
    } else if d == 6 {
        '6'
    } else if d == 7 {
        '7'
    } else if d == 8 {
        '8'
    } else {
        '9'
    }
}

/// The decimal digits of `n`, most significant first, without leading zeros.
pub open spec fn decimal_chars(n: nat) -> Seq<char>
    decreases n,
{
    if n < 10 {
        seq![digit_char(n)]
    } else {
        decimal_chars(n / 10).push(digit_char(n % 10))
    }
}

/// The escape sequence that selects `c` as the foreground color.
pub open spec fn foreground_seq(c: Color) -> Seq<char> {
    seq!['\u{1b}', '[', '3', '8', ';', '2', ';'] + decimal_chars(c.r as nat) + seq![';']
        + decimal_chars(c.g as nat) + seq![';'] + decimal_chars(c.b as nat) + seq!['m']
}

/// The escape sequence that selects `c` as the background color.
pub open spec fn background_seq(c: Color) -> Seq<char> {
    seq!['\u{1b}', '[', '4', '8', ';', '2', ';'] + decimal_chars(c.r as nat) + seq![';']
        + decimal_chars(c.g as nat) + seq![';'] + decimal_chars(c.b as nat) + seq!['m']
}

fn digit_to_char(d: u8) -> (c: char)
    requires
        d < 10,
    ensures
        c == digit_char(d as nat),
{
    if d == 0 {
        '0'
    } else if d == 1 {
        '1'
    } else if d == 2 {
        '2'
    } else if d == 3 {
        '3'
    } else if d == 4 {
        '4'
    } else if d == 5 {
        '5'
    } else if d == 6 {
        '6'
    } else if d == 7 {
        '7'
    } else if d == 8 {
        '8'
    } else {
        '9'
    }
}

/// Appends the decimal digits of `n` to `out`.
fn push_decimal(out: &mut Vec<char>, n: u8)
    ensures
        final(out)@ == old(out)@ + decimal_chars(n as nat),
{
    if n >= 100 {
        out.push(digit_to_char(n / 100));
        out.push(digit_to_char((n / 10) % 10));
        out.push(digit_to_char(n % 10));
        proof {
            let m = n as nat;
            vstd::arithmetic::div_mod::lemma_div_denominator(m as int, 10, 10);
            assert((n / 10) as nat / 10 == m / 100);
            assert(m / 10 >= 10);
            assert(m / 100 < 10);
            assert(decimal_chars(m / 100) =~= seq![digit_char(m / 100)]);
            assert(decimal_chars(m / 10) =~= seq![
                digit_char(m / 100),
                digit_char(m / 10 % 10),
            ]);
            assert(decimal_chars(m) =~= seq![
                digit_char(m / 100),
                digit_char(m / 10 % 10),
                digit_char(m % 10),
            ]);
            assert((n / 10) as nat % 10 == m / 10 % 10);
            assert(final(out)@ =~= old(out)@ + decimal_chars(m));
        }
    } else if n >= 10 {
        out.push(digit_to_char(n / 10));
        out.push(digit_to_char(n % 10));
        proof {
            let m = n as nat;
            assert(m / 10 < 10);
            assert(decimal_chars(m / 10) =~= seq![digit_char(m / 10)]);
            assert(decimal_chars(m) =~= seq![digit_char(m / 10), digit_char(m % 10)]);
            assert(final(out)@ =~= old(out)@ + decimal_chars(m));
        }
    } else {
        out.push(digit_to_char(n));
        proof {
            assert(final(out)@ =~= old(out)@ + decimal_chars(n as nat));
        }
    }
}

impl Color {
    pub fn new(r: u8, g: u8, b: u8) -> (c: Color)
        ensures
            c == (Color { r, g, b }),
    {
        Color { r, g, b }
    }

    /// The escape sequence that makes `self` the foreground color.
    pub fn foreground_ansi(self) -> (s: String)
        ensures
            s@ == foreground_seq(self),
    {
        let mut v: Vec<char> = Vec::new();
        v.push('\u{1b}');
        v.push('[');
        v.push('3');
        v.push('8');
        v.push(';');
        v.push('2');
        v.push(';');
        push_decimal(&mut v, self.r);
        v.push(';');
        push_decimal(&mut v, self.g);
        v.push(';');
        push_decimal(&mut v, self.b);
        v.push('m');
        proof {
            assert(v@ =~= foreground_seq(self));
        }
        crate::text::chars_to_string(&v)
    }

    /// The escape sequence that makes `self` the background color.
    pub fn background_ansi(self) -> (s: String)
        ensures
            s@ == background_seq(self),
    {
        let mut v: Vec<char> = Vec::new();
        v.push('\u{1b}');
        v.push('[');
        v.push('4');
        v.push('8');
        v.push(';');
        v.push('2');
        v.push(';');
        push_decimal(&mut v, self.r);
        v.push(';');
        push_decimal(&mut v, self.g);
        v.push(';');
        push_decimal(&mut v, self.b);
        v.push('m');
        proof {
            assert(v@ =~= background_seq(self));
        }
        crate::text::chars_to_string(&v)
    }
}

impl Default for Color {
    /// The default accent color.
    fn default() -> (c: Color)
        ensures
            c == (Color { r: 0x4C, g: 0x77, b: 0xCC }),
    {
        Color { r: 0x4C, g: 0x77, b: 0xCC }
    }
}

} // verus!
