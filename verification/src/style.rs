//! Shape style information: text alignment, line styles, and the style
//! attributes that every drawn shape carries.

use vstd::prelude::*;
use crate::color::Color;

verus! {

/// Horizontal alignment of text.
#[derive(Debug, Clone)]
pub enum Align {
    Center,
    Left,
    Right,
}

impl Align {
    /// The alignment named by an `align` attribute in a tag attribute
    /// list, or centered when the list carries none.
    pub fn from_tag_attr_list(list: Vec<(String, String)>) -> (r: Self)
    {
        let n = list.len();
        let mut i: usize = 0;
        while i < n
            invariant
                n == list@.len(),
                i <= n,
            decreases n - i,
        {
            if crate::lexer::string_is(&list[i].0, "align") {
                if crate::lexer::string_is(&list[i].1, "left") {
                    return Align::Left;
                }
                if crate::lexer::string_is(&list[i].1, "right") {
                    return Align::Right;
                }
                return Align::Center;
            }
            i += 1;
        }
        Align::Center
    }

    /// The alignment named by `s`: `left`, `right`, or anything else for
    /// centered.
    pub fn from_str(s: &str) -> (r: Self)
        ensures
            s@ == "left"@ ==> r is Left,
            s@ == "right"@ ==> r is Right,
            s@ != "left"@ && s@ != "right"@ ==> r is Center,
    {
        proof {
            assert("left"@ != "right"@) by {
                reveal_strlit("left");
                reveal_strlit("right");
                assert("left"@.len() == 4);
                assert("right"@.len() == 5);
            }
        }
        let owned = s.to_owned();
        if crate::lexer::string_is(&owned, "left") {
            return Align::Left;
        }
        if crate::lexer::string_is(&owned, "right") {
            return Align::Right;
        }
        Align::Center
    }
}

/// Horizontal alignment of line breaks in labels.
#[derive(Debug, Clone)]
pub enum BAlign {
    Center,
    Left,
    Right,
}

/// Vertical alignment of text.
#[derive(Debug, Clone)]
pub enum VAlign {
    Middle,
    Top,
    Bottom,
}

/// How an edge line is drawn. `Hidden` suppresses the line.
#[derive(Debug, Copy, Clone)]
pub enum LineStyleKind {
    Normal,
    Dashed,
    Dotted,
    Hidden,
}

/// Italic text or not.
#[derive(Debug, Copy, Clone)]
pub enum FontStyle {
    Unslanted,
    Italic,
}

/// Bold text or not.
#[derive(Debug, Copy, Clone)]
pub enum FontWeight {
    Regular,
    Bold,
}

/// Which decoration lines the text carries.
#[derive(Debug, Copy, Clone)]
pub struct TextDecoration {
    pub underline: bool,
    pub overline: bool,
    pub line_through: bool,
}

impl TextDecoration {
    pub fn new() -> (r: Self)
        ensures
            !r.underline,
            !r.overline,
            !r.line_through,
    {
        Self { underline: false, overline: false, line_through: false }
    }
}

/// Subscript, superscript, or neither.
#[derive(Debug, Copy, Clone)]
pub enum BaselineShift {
    Sub,
    Super,
    Normal,
}

/// The looks of a drawn shape: its line, fill and font settings.
#[derive(Debug, Clone)]
pub struct StyleAttr {
    pub line_color: Color,
    pub line_width: usize,
    pub fill_color: Option<Color>,
    pub rounded: usize,
    pub font_size: usize,
    pub fontname: String,
    pub font_color: Color,
    pub font_style: FontStyle,
    pub font_weight: FontWeight,
    pub text_decoration: TextDecoration,
    pub baseline_shift: BaselineShift,
    pub align: Align,
    pub valign: VAlign,
    pub balign: BAlign,
}

impl StyleAttr {
    pub fn new(
        line_color: Color,
        line_width: usize,
        fill_color: Option<Color>,
        rounded: usize,
        font_size: usize,
    ) -> (r: Self)
        ensures
            r.line_color == line_color,
            r.line_width == line_width,
            r.fill_color == fill_color,
            r.rounded == rounded,
            r.font_size == font_size,
    {
        let font_color = Color::fast("black");
        let fontname: String = "Times,serif".to_owned();
        Self {
            line_color,
            line_width,
            fill_color,
            font_color,
            rounded,
            font_size,
            fontname,
            font_style: FontStyle::Unslanted,
            font_weight: FontWeight::Regular,
            text_decoration: TextDecoration::new(),
            baseline_shift: BaselineShift::Normal,
            align: Align::Center,
            valign: VAlign::Middle,
            balign: BAlign::Center,
        }
    }

    /// A plain look: black on white.
    pub fn simple() -> (r: Self)
        ensures
            r.line_width == 2,
            r.rounded == 0,
            r.font_size == 15,
    {
        StyleAttr::new(Color::fast("black"), 2, Some(Color::fast("white")), 0, 15)
    }

    /// The look of debug markers for placement runs.
    pub fn debug0() -> (r: Self)
        ensures
            r.line_width == 1,
            r.font_size == 15,
    {
        StyleAttr::new(Color::fast("black"), 1, Some(Color::fast("pink")), 0, 15)
    }

    /// The look of debug markers for connector boxes.
    pub fn debug1() -> (r: Self)
        ensures
            r.line_width == 1,
            r.font_size == 15,
    {
        StyleAttr::new(Color::fast("black"), 1, Some(Color::fast("aliceblue")), 0, 15)
    }

    /// An exact copy of the style.
    pub fn duplicate(&self) -> (r: Self)
        ensures
            r == *self,
    {
        StyleAttr {
            line_color: self.line_color,
            line_width: self.line_width,
            fill_color: self.fill_color,
            rounded: self.rounded,
            font_size: self.font_size,
            fontname: self.fontname.clone(),
            font_color: self.font_color,
            font_style: self.font_style,
            font_weight: self.font_weight,
            text_decoration: self.text_decoration,
            baseline_shift: self.baseline_shift,
            align: clone_align(&self.align),
            valign: clone_valign(&self.valign),
            balign: clone_balign(&self.balign),
        }
    }

    /// The look of debug markers drawn in white.
    pub fn debug2() -> (r: Self)
        ensures
            r.line_width == 1,
            r.font_size == 15,
    {
        StyleAttr::new(Color::fast("black"), 1, Some(Color::fast("white")), 0, 15)
    }
}

/// An exact copy of an alignment.
fn clone_align(a: &Align) -> (r: Align)
    ensures
        r == *a,
{
    match a {
        Align::Center => Align::Center,
        Align::Left => Align::Left,
        Align::Right => Align::Right,
    }
}

/// An exact copy of a vertical alignment.
fn clone_valign(a: &VAlign) -> (r: VAlign)
    ensures
        r == *a,
{
    match a {
        VAlign::Middle => VAlign::Middle,
        VAlign::Top => VAlign::Top,
        VAlign::Bottom => VAlign::Bottom,
    }
}

/// An exact copy of a line-break alignment.
fn clone_balign(a: &BAlign) -> (r: BAlign)
    ensures
        r == *a,
{
    match a {
        BAlign::Center => BAlign::Center,
        BAlign::Left => BAlign::Left,
        BAlign::Right => BAlign::Right,
    }
}

} // verus!
