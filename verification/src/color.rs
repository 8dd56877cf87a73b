//! Colors as packed RGBA values, with a small table of the named colors
//! that DOT files commonly use.

use vstd::prelude::*;

verus! {

/// A color: red, green, blue and alpha, one byte each, packed high to low.
#[derive(Debug, Copy, Clone, PartialEq, Eq, Structural)]
pub struct Color {
    pub rgba: u32,
}

/// The packed value of a named color, or black for an unknown name.
pub open spec fn spec_named_color(name: Seq<char>) -> u32 {
    if name == "white"@ {
        0xffffffffu32
    } else if name == "gray"@ || name == "grey"@ {
        0x808080ffu32
    } else if name == "lightgray"@ || name == "lightgrey"@ {
        0xd3d3d3ffu32
    } else if name == "red"@ {
        0xff0000ffu32
    } else if name == "green"@ {
        0x00ff00ffu32
    } else if name == "blue"@ {
        0x0000ffffu32
    } else if name == "yellow"@ {
        0xffff00ffu32
    } else if name == "orange"@ {
        0xffa500ffu32
    } else if name == "purple"@ {
        0x800080ffu32
    } else if name == "pink"@ {
        0xffc0cbffu32
    } else if name == "violet"@ {
        0xee82eeffu32
    } else if name == "brown"@ {
        0xa52a2affu32
    } else if name == "aliceblue"@ {
        0xf0f8ffffu32
    } else {
        0x000000ffu32
    }
}

impl Color {
    pub fn new(rgba: u32) -> (r: Self)
        ensures
            r.rgba == rgba,
    {
        Self { rgba }
    }

    /// Look a color name up in the table of known colors; anything unknown
    /// renders as black.
    pub fn fast(name: &str) -> (r: Self)
        ensures
            r.rgba == spec_named_color(name@),
    {
        let owned = name.to_owned();
        let v: u32 = if crate::lexer::string_is(&owned, "white") {
            0xffffffff
        } else if crate::lexer::string_is(&owned, "gray") || crate::lexer::string_is(
            &owned,
            "grey",
        ) {
            0x808080ff
        } else if crate::lexer::string_is(&owned, "lightgray") || crate::lexer::string_is(
            &owned,
            "lightgrey",
        ) {
            0xd3d3d3ff
        } else if crate::lexer::string_is(&owned, "red") {
            0xff0000ff
        } else if crate::lexer::string_is(&owned, "green") {
            0x00ff00ff
        } else if crate::lexer::string_is(&owned, "blue") {
            0x0000ffff
        } else if crate::lexer::string_is(&owned, "yellow") {
            0xffff00ff
        } else if crate::lexer::string_is(&owned, "orange") {
            0xffa500ff
        } else if crate::lexer::string_is(&owned, "purple") {
            0x800080ff
        } else if crate::lexer::string_is(&owned, "pink") {
            0xffc0cbff
        } else if crate::lexer::string_is(&owned, "violet") {
            0xee82eeff
        } else if crate::lexer::string_is(&owned, "brown") {
            0xa52a2aff
        } else if crate::lexer::string_is(&owned, "aliceblue") {
            0xf0f8ffff
        } else {
            0x000000ff
        };
        Self { rgba: v }
    }
}


impl Color {
    /// The fully transparent color.
    pub fn transparent() -> (r: Self)
        ensures
            r.rgba == 0,
    {
        Self { rgba: 0 }
    }

    /// The web form of the color: a `#` followed by eight hex digits, two
    /// per channel, red first.
    pub fn to_web_color(&self) -> (r: String)
        ensures
            r@.len() == 9,
            r@[0] == '#',
    {
        let mut out = String::new();
        crate::lexer::append_char(&mut out, '#');
        let mut shift: u32 = 32;
        while shift > 0
            invariant
                shift % 4 == 0,
                shift <= 32,
                out@.len() == 1 + (32 - shift) / 4,
                out@[0] == '#',
            decreases shift,
        {
            shift = shift - 4;
            let v = self.rgba;
            let nibble = (v >> shift) & 0xf;
            proof {
                assert((v >> shift) & 0xf < 16) by (bit_vector);
            }
            crate::lexer::append_char(&mut out, hex_digit(nibble));
        }
        out
    }
}

/// The lower-case hex digit of a value below sixteen.
fn hex_digit(n: u32) -> (r: char)
    requires
        n < 16,
{
    match n {
        0 => '0',
        1 => '1',
        2 => '2',
        3 => '3',
        4 => '4',
        5 => '5',
        6 => '6',
        7 => '7',
        8 => '8',
        9 => '9',
        10 => 'a',
        11 => 'b',
        12 => 'c',
        13 => 'd',
        14 => 'e',
        _ => 'f',
    }
}

} // verus!
