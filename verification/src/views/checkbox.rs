//! A checkbox: a marker and a label, flipped by a click on its mouse area.
use vstd::prelude::*;
use crate::response::Response;
use crate::style::{Palette, Rgba};
use crate::views::mouse_area::MouseAreaResponse;
use crate::views::styles::{or_else, CheckboxStyle};

verus! {

/// The built-in classes a checkbox picks its style from, by the palette and
/// its value: `CheckboxStyle::ascii` and `CheckboxStyle::markdown`.
#[derive(Copy, Clone, Debug, PartialEq, Eq, Structural)]
pub enum CheckboxClass {
    Ascii,
    Markdown,
}

/// A checkbox over a caller's flag, with its label, the class its style
/// comes from and, when one was given, the style it is drawn with instead.
#[derive(Debug)]
pub struct Checkbox<'a> {
    pub value: &'a mut bool,
    pub label: &'a str,
    pub class: CheckboxClass,
    pub style: Option<CheckboxStyle>,
}

/// What a checkbox draws in a frame: the marker for its value and the
/// color of its label.
#[derive(Copy, Clone, Debug)]
pub struct CheckboxLook {
    pub marker: &'static str,
    pub foreground: Rgba,
}

/// The style a checkbox is drawn with: the one it was given, or the one
/// its class picks from the palette (ballot boxes, or brackets with an `X`).
pub open spec fn checkbox_style(class: CheckboxClass, style: Option<CheckboxStyle>, palette: Palette) -> CheckboxStyle {
    match style {
        Some(s) => s,
        None => match class {
            CheckboxClass::Ascii => CheckboxStyle {
                checked: "\u{1F5F9}",
                unchecked: "\u{2610}",
                text_color: palette.foreground,
                hovered_color: Some(palette.contrast),
            },
            CheckboxClass::Markdown => CheckboxStyle {
                checked: "[X]",
                unchecked: "[ ]",
                text_color: palette.foreground,
                hovered_color: Some(palette.contrast),
            },
        },
    }
}

/// A checkbox over `value`, drawn with the palette's ballot boxes.
pub fn checkbox<'a>(value: &'a mut bool, label: &'a str) -> (c: Checkbox<'a>)
    ensures
        *c.value == *old(value),
        *final(c.value) == *final(value),
        c.label@ == label@,
        c.class == CheckboxClass::Ascii,
        c.style == None::<CheckboxStyle>,
{
    Checkbox { value, label, class: CheckboxClass::Ascii, style: None }
}

impl<'a> Checkbox<'a> {
    /// Pick the style from `class`, by the palette and the value, from now on.
    pub fn class(self, class: CheckboxClass) -> (c: Checkbox<'a>)
        ensures
            *c.value == *old(self.value),
            *final(c.value) == *final(self.value),
            c.label@ == self.label@,
            c.class == class,
            c.style == None::<CheckboxStyle>,
    {
        Checkbox { value: self.value, label: self.label, class, style: None }
    }

    /// Draw the checkbox with `style` whatever the palette.
    pub fn style(self, style: CheckboxStyle) -> (c: Checkbox<'a>)
        ensures
            *c.value == *old(self.value),
            *final(c.value) == *final(self.value),
            c.label@ == self.label@,
            c.class == self.class,
            c.style == Some(style),
    {
        Checkbox { value: self.value, label: self.label, class: self.class, style: Some(style) }
    }

    /// The marker and label color for a frame in which the mouse is over
    /// the checkbox or not.
    pub fn look(&self, palette: &Palette, hovered: bool) -> (l: CheckboxLook)
        ensures
            ({
                let s = checkbox_style(self.class, self.style, *palette);
                &&& l.marker@ == (if *old(self.value) {
                    s.checked@
                } else {
                    s.unchecked@
                })
                &&& l.foreground == (if hovered {
                    or_else(s.hovered_color, s.text_color)
                } else {
                    s.text_color
                })
            }),
    {
        let style = match self.style {
            Some(s) => s,
            None => match self.class {
                CheckboxClass::Ascii => CheckboxStyle::ascii(palette, *self.value),
                CheckboxClass::Markdown => CheckboxStyle::markdown(palette, *self.value),
            },
        };
        CheckboxLook { marker: style.marker(*self.value), foreground: style.foreground(hovered) }
    }

    /// Finish the frame with the response of the checkbox's mouse area: a
    /// click flips the flag, and the response says whether there was one.
    pub fn show(self, area: Response<MouseAreaResponse>) -> (r: Response<bool>)
        ensures
            *final(self.value) == (*old(self.value) != area.spec_inner().clicked),
            r.spec_id() == area.spec_id(),
            r.spec_inner() == area.spec_inner().clicked,
    {
        let clicked = area.inner().clicked();
        *self.value = *self.value != clicked;
        Response::new(area.id(), clicked)
    }
}

} // verus!
