//! Configuration: the color scheme and the screen layout.

use vstd::prelude::*;

use crate::color::Color;

verus! {

/// The colors used for each scoring category and for the surrounding interface.
#[derive(Copy, Clone, PartialEq, Eq, Structural, Debug)]
pub struct ColorScheme {
    pub background: Color,
    pub interface: Color,
    pub correct: Color,
    pub untyped: Color,
    pub missed: Color,
    pub incorrect: Color,
}

/// Where the interface elements sit on the screen, and the text geometry.
#[derive(Copy, Clone, PartialEq, Eq, Structural, Debug)]
pub struct Layout {
    pub name_x: usize,
    pub name_y: usize,
    pub text_start_x: usize,
    pub text_start_y: usize,
    pub tab_size: usize,
    pub alignment: usize,
    pub result_offset: usize,
}

/// The whole configuration.
#[derive(Copy, Clone, PartialEq, Eq, Structural, Debug)]
pub struct Config {
    pub colors: ColorScheme,
    pub layout: Layout,
}

impl Default for ColorScheme {
    fn default() -> (c: ColorScheme)
        ensures
            c == (ColorScheme {
                background: Color { r: 0x25, g: 0x25, b: 0x25 },
                interface: Color { r: 0xFE, g: 0xCE, b: 0x00 },
                correct: Color { r: 0xFF, g: 0xFF, b: 0xFF },
                untyped: Color { r: 0xAE, g: 0xAD, b: 0xA4 },
                missed: Color { r: 0xDC, g: 0xBF, b: 0xCF },
                incorrect: Color { r: 0xBE, g: 0x50, b: 0x46 },
            }),
    {
        ColorScheme {
            background: Color { r: 0x25, g: 0x25, b: 0x25 },
            interface: Color { r: 0xFE, g: 0xCE, b: 0x00 },
            correct: Color { r: 0xFF, g: 0xFF, b: 0xFF },
            untyped: Color { r: 0xAE, g: 0xAD, b: 0xA4 },
            missed: Color { r: 0xDC, g: 0xBF, b: 0xCF },
            incorrect: Color { r: 0xBE, g: 0x50, b: 0x46 },
        }
    }
}

impl Default for Layout {
    fn default() -> (l: Layout)
        ensures
            l == (Layout {
                name_x: 4,
                name_y: 2,
                text_start_x: 8,
                text_start_y: 4,
                tab_size: 4,
                alignment: 64,
                result_offset: 1,
            }),
    {
        Layout {
            name_x: 4,
            name_y: 2,
            text_start_x: 8,
            text_start_y: 4,
            tab_size: 4,
            alignment: 64,
            result_offset: 1,
        }
    }
}

impl Default for Config {
    fn default() -> (c: Config)
        ensures
            c.colors == (ColorScheme {
                background: Color { r: 0x25, g: 0x25, b: 0x25 },
                interface: Color { r: 0xFE, g: 0xCE, b: 0x00 },
                correct: Color { r: 0xFF, g: 0xFF, b: 0xFF },
                untyped: Color { r: 0xAE, g: 0xAD, b: 0xA4 },
                missed: Color { r: 0xDC, g: 0xBF, b: 0xCF },
                incorrect: Color { r: 0xBE, g: 0x50, b: 0x46 },
            }),
            c.layout == (Layout {
                name_x: 4,
                name_y: 2,
                text_start_x: 8,
                text_start_y: 4,
                tab_size: 4,
                alignment: 64,
                result_offset: 1,
            }),
    {
        Config { colors: ColorScheme::default(), layout: Layout::default() }
    }
}

} // verus!
