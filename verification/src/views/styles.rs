//! The styles of the built-in views, and how a style picks its colors.
use vstd::prelude::*;
use crate::layout::Axis;
use crate::style::{luma, Elements, Palette, Rgba};

verus! {

/// The style of a label.
#[derive(Copy, Clone, Debug, PartialEq, Eq, Structural)]
pub struct LabelStyle {
    pub foreground: Rgba,
}

impl LabelStyle {
    /// Text in the foreground color.
    pub fn default(palette: &Palette) -> (s: LabelStyle)
        ensures
            s == (LabelStyle { foreground: palette.foreground }),
    {
        LabelStyle { foreground: palette.foreground }
    }

    /// Text in the info color.
    pub fn info(palette: &Palette) -> (s: LabelStyle)
        ensures
            s == (LabelStyle { foreground: palette.info }),
    {
        LabelStyle { foreground: palette.info }
    }

    /// Text in the warning color.
    pub fn warning(palette: &Palette) -> (s: LabelStyle)
        ensures
            s == (LabelStyle { foreground: palette.warning }),
    {
        LabelStyle { foreground: palette.warning }
    }

    /// Text in the danger color.
    pub fn danger(palette: &Palette) -> (s: LabelStyle)
        ensures
            s == (LabelStyle { foreground: palette.danger }),
    {
        LabelStyle { foreground: palette.danger }
    }
}

/// The style of a progress bar.
#[derive(Copy, Clone, Debug, PartialEq, Eq, Structural)]
pub struct ProgressStyle {
    pub unfilled_color: Rgba,
    pub filled_color: Rgba,
    pub unfilled_hovered: Option<Rgba>,
    pub filled_hovered: Option<Rgba>,
    pub unfilled: char,
    pub filled: char,
}

pub open spec fn along(axis: Axis, horizontal: char, vertical: char) -> char {
    match axis {
        Axis::Horizontal => horizontal,
        Axis::Vertical => vertical,
    }
}

/// The default progress style with other characters.
pub open spec fn progress_with(palette: Palette, unfilled: char, filled: char) -> ProgressStyle {
    ProgressStyle {
        unfilled_color: palette.outline,
        filled_color: palette.primary,
        unfilled_hovered: None,
        filled_hovered: None,
        unfilled,
        filled,
    }
}

impl ProgressStyle {
    /// Medium squares (full blocks when vertical) filled with full blocks.
    pub fn default(palette: &Palette, axis: Axis) -> (s: ProgressStyle)
        ensures
            s == progress_with(*palette, along(axis, '\u{25A0}', '\u{2588}'), '\u{2588}'),
    {
        ProgressStyle {
            unfilled_color: palette.outline,
            filled_color: palette.primary,
            unfilled_hovered: None,
            filled_hovered: None,
            unfilled: axis.main((Elements::MEDIUM_RECT, Elements::LARGE_RECT)),
            filled: Elements::LARGE_RECT,
        }
    }

    /// Medium squares, filled or not.
    pub fn medium_filled(palette: &Palette, axis: Axis) -> (s: ProgressStyle)
        ensures
            s == progress_with(*palette, '\u{25A0}', '\u{25A0}'),
    {
        ProgressStyle {
            unfilled: axis.main((Elements::MEDIUM_RECT, Elements::MEDIUM_RECT)),
            filled: axis.main((Elements::MEDIUM_RECT, Elements::MEDIUM_RECT)),
            ..Self::default(palette, axis)
        }
    }

    /// Full blocks, filled or not.
    pub fn filled(palette: &Palette, axis: Axis) -> (s: ProgressStyle)
        ensures
            s == progress_with(*palette, '\u{2588}', '\u{2588}'),
    {
        ProgressStyle {
            unfilled: axis.main((Elements::LARGE_RECT, Elements::LARGE_RECT)),
            filled: axis.main((Elements::LARGE_RECT, Elements::LARGE_RECT)),
            ..Self::default(palette, axis)
        }
    }

    /// A thin line along the axis.
    pub fn thin(palette: &Palette, axis: Axis) -> (s: ProgressStyle)
        ensures
            s == progress_with(
                *palette,
                along(axis, '\u{2500}', '\u{2502}'),
                along(axis, '\u{2500}', '\u{2502}'),
            ),
    {
        ProgressStyle {
            unfilled: axis.main((Elements::HORIZONTAL_LINE, Elements::VERTICAL_LINE)),
            filled: axis.main((Elements::HORIZONTAL_LINE, Elements::VERTICAL_LINE)),
            ..Self::default(palette, axis)
        }
    }

    /// A thick line along the axis.
    pub fn thick(palette: &Palette, axis: Axis) -> (s: ProgressStyle)
        ensures
            s == progress_with(
                *palette,
                along(axis, '\u{2501}', '\u{2503}'),
                along(axis, '\u{2501}', '\u{2503}'),
            ),
    {
        ProgressStyle {
            unfilled: axis.main((Elements::THICK_HORIZONTAL_LINE, Elements::THICK_VERTICAL_LINE)),
            filled: axis.main((Elements::THICK_HORIZONTAL_LINE, Elements::THICK_VERTICAL_LINE)),
            ..Self::default(palette, axis)
        }
    }

    /// A thin dashed line along the axis.
    pub fn thin_dashed(palette: &Palette, axis: Axis) -> (s: ProgressStyle)
        ensures
            s == progress_with(
                *palette,
                along(axis, '\u{254C}', '\u{254E}'),
                along(axis, '\u{254C}', '\u{254E}'),
            ),
    {
        ProgressStyle {
            unfilled: axis.main((Elements::DASH_HORIZONTAL_LINE, Elements::DASH_VERTICAL_LINE)),
            filled: axis.main((Elements::DASH_HORIZONTAL_LINE, Elements::DASH_VERTICAL_LINE)),
            ..Self::default(palette, axis)
        }
    }

    /// A thick dashed line along the axis.
    pub fn thick_dashed(palette: &Palette, axis: Axis) -> (s: ProgressStyle)
        ensures
            s == progress_with(
                *palette,
                along(axis, '\u{254D}', '\u{254F}'),
                along(axis, '\u{254D}', '\u{254F}'),
            ),
    {
        ProgressStyle {
            unfilled: axis.main(
                (Elements::THICK_DASH_HORIZONTAL_LINE, Elements::THICK_DASH_VERTICAL_LINE),
            ),
            filled: axis.main(
                (Elements::THICK_DASH_HORIZONTAL_LINE, Elements::THICK_DASH_VERTICAL_LINE),
            ),
            ..Self::default(palette, axis)
        }
    }
}

/// The style of a radio button.
#[derive(Copy, Clone, Debug, PartialEq, Eq, Structural)]
pub struct RadioStyle {
    pub text_color: Rgba,
    pub background: Rgba,
    pub selected_background: Rgba,
    pub hovered_text: Option<Rgba>,
    pub hovered_background: Option<Rgba>,
}

pub open spec fn or_else(c: Option<Rgba>, d: Rgba) -> Rgba {
    match c {
        Some(c) => c,
        None => d,
    }
}

impl RadioStyle {
    /// Surface when unselected, primary when selected, no hover colors.
    pub fn default(palette: &Palette, selected: bool) -> (s: RadioStyle)
        ensures
            s == (RadioStyle {
                text_color: palette.foreground,
                background: palette.surface,
                selected_background: palette.primary,
                hovered_text: None,
                hovered_background: None,
            }),
    {
        RadioStyle {
            text_color: palette.foreground,
            background: palette.surface,
            selected_background: palette.primary,
            hovered_text: None,
            hovered_background: None,
        }
    }

    /// The default style with surface-colored text on the secondary color when hovered.
    pub fn hovered(palette: &Palette, selected: bool) -> (s: RadioStyle)
        ensures
            s == (RadioStyle {
                text_color: palette.foreground,
                background: palette.surface,
                selected_background: palette.primary,
                hovered_text: Some(palette.surface),
                hovered_background: Some(palette.secondary),
            }),
    {
        RadioStyle {
            hovered_text: Some(palette.surface),
            hovered_background: Some(palette.secondary),
            ..Self::default(palette, selected)
        }
    }

    /// The background a radio button is filled with.
    pub fn fill(&self, hovered: bool, selected: bool) -> (c: Rgba)
        ensures
            c == (if hovered {
                or_else(
                    self.hovered_background,
                    if selected {
                        self.selected_background
                    } else {
                        self.background
                    },
                )
            } else if selected {
                self.selected_background
            } else {
                self.background
            }),
    {
        match (hovered, selected) {
            (false, true) => self.selected_background,
            (false, false) => self.background,
            (true, true) => match self.hovered_background {
                Some(c) => c,
                None => self.selected_background,
            },
            (true, false) => match self.hovered_background {
                Some(c) => c,
                None => self.background,
            },
        }
    }

    /// The color of a radio button's label.
    pub fn text(&self, hovered: bool) -> (c: Rgba)
        ensures
            c == (if hovered {
                or_else(self.hovered_text, self.text_color)
            } else {
                self.text_color
            }),
    {
        if hovered {
            match self.hovered_text {
                Some(c) => c,
                None => self.text_color,
            }
        } else {
            self.text_color
        }
    }
}

/// The style of a checkbox.
#[derive(Copy, Clone, Debug)]
pub struct CheckboxStyle {
    pub checked: &'static str,
    pub unchecked: &'static str,
    pub text_color: Rgba,
    pub hovered_color: Option<Rgba>,
}

impl CheckboxStyle {
    /// Brackets with an `X` when checked.
    pub fn markdown(palette: &Palette, checked: bool) -> (s: CheckboxStyle)
        ensures
            s.checked@ == "[X]"@,
            s.unchecked@ == "[ ]"@,
            s.text_color == palette.foreground,
            s.hovered_color == Some(palette.contrast),
    {
        CheckboxStyle { checked: "[X]", unchecked: "[ ]", ..Self::ascii(palette, checked) }
    }

    /// Ballot boxes, with a check mark when checked.
    pub fn ascii(palette: &Palette, checked: bool) -> (s: CheckboxStyle)
        ensures
            s.checked@ == "\u{1F5F9}"@,
            s.unchecked@ == "\u{2610}"@,
            s.text_color == palette.foreground,
            s.hovered_color == Some(palette.contrast),
    {
        CheckboxStyle {
            checked: "\u{1F5F9}",
            unchecked: "\u{2610}",
            text_color: palette.foreground,
            hovered_color: Some(palette.contrast),
        }
    }

    /// The color of the checkbox's label.
    pub fn foreground(&self, hovered: bool) -> (c: Rgba)
        ensures
            c == (if hovered {
                or_else(self.hovered_color, self.text_color)
            } else {
                self.text_color
            }),
    {
        if hovered {
            match self.hovered_color {
                Some(c) => c,
                None => self.text_color,
            }
        } else {
            self.text_color
        }
    }

    /// The marker shown for `value`.
    pub fn marker(&self, value: bool) -> (m: &'static str)
        ensures
            m@ == (if value {
                self.checked@
            } else {
                self.unchecked@
            }),
    {
        if value {
            self.checked
        } else {
            self.unchecked
        }
    }
}

/// The interaction state of a button.
#[derive(Copy, Clone, Debug, PartialEq, Eq, Structural)]
pub enum State {
    Hovered,
    Held,
    Clicked,
    Disabled,
    Idle,
}

/// The colors of a button.
#[derive(Copy, Clone, Debug, PartialEq, Eq, Structural)]
pub struct ButtonStyle {
    pub text_color: Rgba,
    pub background: Rgba,
}

/// The style of a button whose resting background is `primary`.
pub open spec fn button_common(palette: Palette, state: State, primary: Rgba, text_color: Rgba) -> ButtonStyle {
    match state {
        State::Hovered => ButtonStyle { text_color, background: palette.accent },
        State::Held => ButtonStyle { text_color, background: palette.secondary },
        State::Clicked => ButtonStyle { text_color, background: palette.primary },
        State::Disabled => ButtonStyle { text_color: palette.outline, background: palette.surface },
        State::Idle => ButtonStyle { text_color, background: primary },
    }
}

/// The text color of a colored button: the background color on a dark palette.
pub open spec fn on_color(palette: Palette) -> Rgba {
    if luma(palette.background) < 128000 {
        palette.background
    } else {
        palette.foreground
    }
}

impl ButtonStyle {
    fn common(palette: &Palette, state: State, primary: Rgba, text_color: Rgba) -> (s: ButtonStyle)
        ensures
            s == button_common(*palette, state, primary, text_color),
    {
        let mut text_color = text_color;
        let background = match state {
            State::Hovered => palette.accent,
            State::Held => palette.secondary,
            State::Clicked => palette.primary,
            State::Disabled => {
                text_color = palette.outline;
                palette.surface
            },
            State::Idle => primary,
        };
        ButtonStyle { text_color, background }
    }

    fn on_color(palette: &Palette) -> (c: Rgba)
        ensures
            c == on_color(*palette),
    {
        if palette.is_dark() {
            palette.background
        } else {
            palette.foreground
        }
    }

    /// Foreground text on the outline color.
    pub fn default(palette: &Palette, state: State) -> (s: ButtonStyle)
        ensures
            s == button_common(*palette, state, palette.outline, palette.foreground),
    {
        Self::common(palette, state, palette.outline, palette.foreground)
    }

    /// A button in the success color.
    pub fn success(palette: &Palette, state: State) -> (s: ButtonStyle)
        ensures
            s == button_common(*palette, state, palette.success, on_color(*palette)),
    {
        let fg = Self::on_color(palette);
        Self::common(palette, state, palette.success, fg)
    }

    /// A button in the info color.
    pub fn info(palette: &Palette, state: State) -> (s: ButtonStyle)
        ensures
            s == button_common(*palette, state, palette.info, on_color(*palette)),
    {
        let fg = Self::on_color(palette);
        Self::common(palette, state, palette.info, fg)
    }

    /// A button in the warning color.
    pub fn warning(palette: &Palette, state: State) -> (s: ButtonStyle)
        ensures
            s == button_common(*palette, state, palette.warning, on_color(*palette)),
    {
        let fg = Self::on_color(palette);
        Self::common(palette, state, palette.warning, fg)
    }

    /// A button in the danger color.
    pub fn danger(palette: &Palette, state: State) -> (s: ButtonStyle)
        ensures
            s == button_common(*palette, state, palette.danger, on_color(*palette)),
    {
        let fg = Self::on_color(palette);
        Self::common(palette, state, palette.danger, fg)
    }
}

} // verus!
