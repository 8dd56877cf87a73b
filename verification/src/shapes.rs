//! The shape-model types that carry no geometry: record definitions and the
//! arrows that connect nodes, with their line styles and ports.

use vstd::prelude::*;
use crate::style::LineStyleKind;
use crate::style::StyleAttr;

verus! {

/// How an edge ends: with an arrow head, or flat.
#[derive(Debug, Copy, Clone)]
pub enum LineEndKind {
    Flat,
    Arrow,
}

/// A record label: either one cell of text with an optional port name, or
/// an array of nested records.
#[derive(Debug)]
pub enum RecordDef {
    Text(String, Option<String>),
    Array(Vec<RecordDef>),
}

impl RecordDef {
    /// A text cell without a port.
    pub fn new_text(s: &str) -> (r: Self)
        ensures
            r matches RecordDef::Text(t, p) && t@ == s@ && p is None,
    {
        RecordDef::Text(s.to_owned(), None)
    }

    /// A text cell with a port name.
    pub fn new_text_with_port(s: &str, p: &str) -> (r: Self)
        ensures
            r matches RecordDef::Text(t, q) && t@ == s@ && (q matches Some(qq) && qq@ == p@),
    {
        RecordDef::Text(s.to_owned(), Some(p.to_owned()))
    }
}

/// An edge of the drawing: its two end styles, its line style, its label,
/// its look, and the optional record ports it attaches to.
#[derive(Debug, Clone)]
pub struct Arrow {
    pub start: LineEndKind,
    pub end: LineEndKind,
    pub line_style: LineStyleKind,
    pub text: String,
    pub look: StyleAttr,
    pub properties: Option<String>,
    pub src_port: Option<String>,
    pub dst_port: Option<String>,
}

impl Arrow {
    /// The same arrow pointing the other way: ends and ports swapped, all
    /// else kept. Reversing twice gives back the original arrow.
    pub fn reverse(&self) -> (r: Arrow)
        ensures
            r.start == self.end,
            r.end == self.start,
            r.line_style == self.line_style,
            r.text == self.text,
            r.look == self.look,
            r.src_port == self.dst_port,
            r.dst_port == self.src_port,
            r.properties == self.properties,
    {
        Arrow {
            start: self.end,
            end: self.start,
            line_style: self.line_style,
            text: self.text.clone(),
            look: self.look.duplicate(),
            properties: clone_opt_string(&self.properties),
            src_port: self.dst_port.clone(),
            dst_port: self.src_port.clone(),
        }
    }

    pub fn new(
        start: LineEndKind,
        end: LineEndKind,
        line_style: LineStyleKind,
        text: &str,
        look: &StyleAttr,
        src_port: &Option<String>,
        dst_port: &Option<String>,
    ) -> (r: Arrow)
        ensures
            r.start == start,
            r.end == end,
            r.line_style == line_style,
            r.text@ == text@,
            r.look == *look,
            r.properties is None,
            r.src_port == *src_port,
            r.dst_port == *dst_port,
    {
        Arrow {
            start,
            end,
            line_style,
            text: text.to_owned(),
            look: look.duplicate(),
            properties: None,
            src_port: clone_opt_string(src_port),
            dst_port: clone_opt_string(dst_port),
        }
    }

    pub fn with_properties(
        start: LineEndKind,
        end: LineEndKind,
        line_style: LineStyleKind,
        text: &str,
        look: &StyleAttr,
        properties: &str,
        src_port: &Option<String>,
        dst_port: &Option<String>,
    ) -> (r: Arrow)
        ensures
            r.start == start,
            r.end == end,
            r.line_style == line_style,
            r.text@ == text@,
            (r.properties matches Some(p) && p@ == properties@),
            r.look == *look,
            r.src_port == *src_port,
            r.dst_port == *dst_port,
    {
        Arrow {
            start,
            end,
            line_style,
            text: text.to_owned(),
            look: look.duplicate(),
            properties: Some(properties.to_owned()),
            src_port: clone_opt_string(src_port),
            dst_port: clone_opt_string(dst_port),
        }
    }

    /// A plain directed arrow: flat at the source, an arrow head at the
    /// destination, carrying the given label.
    pub fn simple(text: &str) -> (r: Arrow)
        ensures
            r.start is Flat,
            r.end is Arrow,
            r.line_style is Normal,
            r.text@ == text@,
            r.src_port is None,
            r.dst_port is None,
    {
        Arrow::new(
            LineEndKind::Flat,
            LineEndKind::Arrow,
            LineStyleKind::Normal,
            text,
            &StyleAttr::simple(),
            &None,
            &None,
        )
    }

    pub fn simple_with_properties(text: &str, properties: &str) -> (r: Arrow)
        ensures
            r.start is Flat,
            r.end is Arrow,
            r.line_style is Normal,
            r.text@ == text@,
            (r.properties matches Some(p) && p@ == properties@),
    {
        let mut arrow = Arrow::simple(text);
        arrow.properties = Some(properties.to_owned());
        arrow
    }

    /// An arrow that is not drawn at all.
    pub fn invisible() -> (r: Arrow)
        ensures
            r.start is Flat,
            r.end is Flat,
            r.line_style is Hidden,
            r.text@ == ""@,
    {
        Arrow::new(
            LineEndKind::Flat,
            LineEndKind::Flat,
            LineStyleKind::Hidden,
            "",
            &StyleAttr::simple(),
            &None,
            &None,
        )
    }
}

/// An exact copy of an optional string.
fn clone_opt_string(o: &Option<String>) -> (r: Option<String>)
    ensures
        r == *o,
{
    match o {
        Some(s) => Some(s.clone()),
        None => None,
    }
}

impl Default for Arrow {
    fn default() -> (r: Arrow)
        ensures
            r.start is Flat,
            r.end is Arrow,
            r.line_style is Normal,
            r.text@ == ""@,
    {
        Arrow::simple("")
    }
}

} // verus!
