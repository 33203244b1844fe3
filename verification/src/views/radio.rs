//! A radio button: one of several values a caller's variable can take,
//! chosen by a click.
use vstd::prelude::*;
use vstd::std_specs::cmp::PartialEqSpec;
use crate::response::Response;
use crate::style::{Palette, Rgba};
use crate::views::mouse_area::MouseAreaResponse;
use crate::views::styles::{or_else, RadioStyle};

verus! {

/// A radio button that puts `value` into the caller's `existing` when
/// clicked, with its label and, when one was given, its style.
#[derive(Debug)]
pub struct Radio<'a, V> {
    pub value: V,
    pub existing: &'a mut V,
    pub label: &'a str,
    pub style: Option<RadioStyle>,
}

/// What a radio button draws in a frame: its background and the color of
/// its label.
#[derive(Copy, Clone, Debug, PartialEq, Eq, Structural)]
pub struct RadioLook {
    pub fill: Rgba,
    pub text: Rgba,
}

/// The style a radio button is drawn with: the one it was given, or the
/// palette's surface and primary colors.
pub open spec fn radio_style(style: Option<RadioStyle>, palette: Palette) -> RadioStyle {
    match style {
        Some(s) => s,
        None => RadioStyle {
            text_color: palette.foreground,
            background: palette.surface,
            selected_background: palette.primary,
            hovered_text: None,
            hovered_background: None,
        },
    }
}

/// What a radio button in style `s` draws, hovered or not, selected or not.
pub open spec fn radio_look(s: RadioStyle, hovered: bool, selected: bool) -> RadioLook {
    let base = if selected {
        s.selected_background
    } else {
        s.background
    };
    RadioLook {
        fill: if hovered {
            or_else(s.hovered_background, base)
        } else {
            base
        },
        text: if hovered {
            or_else(s.hovered_text, s.text_color)
        } else {
            s.text_color
        },
    }
}

/// A radio button for `value` over `existing`, in the palette's colors.
pub fn radio<'a, V: PartialEq>(value: V, existing: &'a mut V, label: &'a str) -> (r: Radio<'a, V>)
    ensures
        r.value == value,
        *r.existing == *old(existing),
        *final(r.existing) == *final(existing),
        r.label@ == label@,
        r.style == None::<RadioStyle>,
{
    Radio { value, existing, label, style: None }
}

impl<'a, V: PartialEq> Radio<'a, V> {
    /// Draw the radio button with `style` whatever the palette.
    pub fn style(self, style: RadioStyle) -> (r: Radio<'a, V>)
        ensures
            r.value == self.value,
            *r.existing == *old(self.existing),
            *final(r.existing) == *final(self.existing),
            r.label@ == self.label@,
            r.style == Some(style),
    {
        Radio { value: self.value, existing: self.existing, label: self.label, style: Some(style) }
    }

    /// The background and label color for a frame in which the mouse is
    /// over the button or not. The button counts as selected when its value
    /// equals the caller's.
    pub fn look(&self, palette: &Palette, hovered: bool) -> (l: RadioLook)
        ensures
            l == radio_look(radio_style(self.style, *palette), hovered, true) || l == radio_look(
                radio_style(self.style, *palette),
                hovered,
                false,
            ),
            V::obeys_eq_spec() ==> l == radio_look(
                radio_style(self.style, *palette),
                hovered,
                self.value.eq_spec(&*old(self.existing)),
            ),
    {
        let selected = self.value == *self.existing;
        let style = match self.style {
            Some(s) => s,
            None => RadioStyle::default(palette, selected),
        };
        RadioLook { fill: style.fill(hovered, selected), text: style.text(hovered) }
    }

    /// Finish the frame with the response of the button's mouse area: a
    /// click puts the button's value into the caller's variable, and the
    /// response says whether there was one.
    pub fn show(self, area: Response<MouseAreaResponse>) -> (r: Response<bool>)
        ensures
            *final(self.existing) == (if area.spec_inner().clicked {
                self.value
            } else {
                *old(self.existing)
            }),
            r.spec_id() == area.spec_id(),
            r.spec_inner() == area.spec_inner().clicked,
    {
        let clicked = area.inner().clicked();
        if clicked {
            *self.existing = self.value;
        }
        Response::new(area.id(), clicked)
    }
}

} // verus!
