//! Colors, the color palette used by the built-in views, drawing elements and axes.
use vstd::prelude::*;

verus! {

/// A color with red, green, blue and alpha channels.
#[derive(Copy, Clone, Debug, PartialEq, Eq, Structural)]
pub struct Rgba {
    pub r: u8,
    pub g: u8,
    pub b: u8,
    pub a: u8,
}

/// The perceived brightness of a color, weighted per channel, in thousandths.
pub open spec fn luma(c: Rgba) -> int {
    299 * c.r + 587 * c.g + 114 * c.b
}

impl Rgba {
    /// An opaque color.
    pub fn rgb(r: u8, g: u8, b: u8) -> (c: Rgba)
        ensures
            c == (Rgba { r, g, b, a: 255 }),
    {
        Rgba { r, g, b, a: 255 }
    }

    /// Is the color's perceived brightness below the middle of the range?
    pub fn is_dark(&self) -> (d: bool)
        ensures
            d == (luma(*self) < 128000),
    {
        let l: u32 = 299 * (self.r as u32) + 587 * (self.g as u32) + 114 * (self.b as u32);
        l < 128000
    }
}

/// An opaque color from its `0xRRGGBB` value.
pub open spec fn hex(v: u32) -> Rgba {
    Rgba { r: (v / 0x10000 % 0x100) as u8, g: (v / 0x100 % 0x100) as u8, b: (v % 0x100) as u8, a: 255 }
}

/// A color palette used by the built-in views.
#[derive(Copy, Clone, Debug, PartialEq, Eq, Structural)]
pub struct Palette {
    /// The background color
    pub background: Rgba,
    /// The foreground color
    pub foreground: Rgba,
    /// A color close to the background, but more visible
    pub surface: Rgba,
    /// A color used to outline things
    pub outline: Rgba,
    /// A color used to contrast something against the background
    pub contrast: Rgba,
    /// A color used for a primary action
    pub primary: Rgba,
    /// A color used for a secondary action
    pub secondary: Rgba,
    /// An accent color
    pub accent: Rgba,
    /// A color representing that something is dangerous
    pub danger: Rgba,
    /// A color representing that something is successful
    pub success: Rgba,
    /// A color representing that something is potentially dangerous
    pub warning: Rgba,
    /// A color representing that something should be noted
    pub info: Rgba,
}

impl Palette {
    /// The default dark palette.
    pub fn dark() -> (p: Palette)
        ensures
            p == (Palette {
                background: hex(0x131313),
                foreground: hex(0xFFFFFF),
                surface: hex(0x232323),
                outline: hex(0x4D4D4D),
                contrast: hex(0xA9E9E9),
                primary: hex(0x55B1F0),
                secondary: hex(0x8C8BED),
                accent: hex(0xF4A151),
                danger: hex(0xF05D61),
                success: hex(0x9AF07A),
                warning: hex(0xF9F35F),
                info: hex(0x6A7DDA),
            }),
    {
        let p = Palette {
            background: Rgba::rgb(0x13, 0x13, 0x13),
            foreground: Rgba::rgb(0xFF, 0xFF, 0xFF),
            surface: Rgba::rgb(0x23, 0x23, 0x23),
            outline: Rgba::rgb(0x4D, 0x4D, 0x4D),
            contrast: Rgba::rgb(0xA9, 0xE9, 0xE9),
            primary: Rgba::rgb(0x55, 0xB1, 0xF0),
            secondary: Rgba::rgb(0x8C, 0x8B, 0xED),
            accent: Rgba::rgb(0xF4, 0xA1, 0x51),
            danger: Rgba::rgb(0xF0, 0x5D, 0x61),
            success: Rgba::rgb(0x9A, 0xF0, 0x7A),
            warning: Rgba::rgb(0xF9, 0xF3, 0x5F),
            info: Rgba::rgb(0x6A, 0x7D, 0xDA),
        };
        p
    }

    /// The default light palette.
    pub fn light() -> (p: Palette)
        ensures
            p == (Palette {
                background: hex(0xE0E0E0),
                foreground: hex(0x000000),
                surface: hex(0xC3C5C8),
                outline: hex(0x9D9099),
                contrast: hex(0x663696),
                primary: hex(0x8175DF),
                secondary: hex(0x28758D),
                accent: hex(0x776BC2),
                danger: hex(0xC7343B),
                success: hex(0x33D17A),
                warning: hex(0xF9F35F),
                info: hex(0x0077C2),
            }),
    {
        Palette {
            background: Rgba::rgb(0xE0, 0xE0, 0xE0),
            foreground: Rgba::rgb(0x00, 0x00, 0x00),
            surface: Rgba::rgb(0xC3, 0xC5, 0xC8),
            outline: Rgba::rgb(0x9D, 0x90, 0x99),
            contrast: Rgba::rgb(0x66, 0x36, 0x96),
            primary: Rgba::rgb(0x81, 0x75, 0xDF),
            secondary: Rgba::rgb(0x28, 0x75, 0x8D),
            accent: Rgba::rgb(0x77, 0x6B, 0xC2),
            danger: Rgba::rgb(0xC7, 0x34, 0x3B),
            success: Rgba::rgb(0x33, 0xD1, 0x7A),
            warning: Rgba::rgb(0xF9, 0xF3, 0x5F),
            info: Rgba::rgb(0x00, 0x77, 0xC2),
        }
    }

    /// Is the background dark?
    pub fn is_dark(&self) -> (d: bool)
        ensures
            d == (luma(self.background) < 128000),
    {
        self.background.is_dark()
    }

    /// Is the background light?
    pub fn is_light(&self) -> (d: bool)
        ensures
            d == !(luma(self.background) < 128000),
    {
        !self.is_dark()
    }
}

impl Default for Palette {
    fn default() -> (p: Palette)
        ensures
            p == (Palette {
                background: hex(0x131313),
                foreground: hex(0xFFFFFF),
                surface: hex(0x232323),
                outline: hex(0x4D4D4D),
                contrast: hex(0xA9E9E9),
                primary: hex(0x55B1F0),
                secondary: hex(0x8C8BED),
                accent: hex(0xF4A151),
                danger: hex(0xF05D61),
                success: hex(0x9AF07A),
                warning: hex(0xF9F35F),
                info: hex(0x6A7DDA),
            }),
    {
        Palette::dark()
    }
}

/// The dark palette has a dark background and the light one a light background.
pub proof fn lemma_palettes_match_their_names()
    ensures
        luma(hex(0x131313)) < 128000,
        !(luma(hex(0xE0E0E0)) < 128000),
{
    assert(hex(0x131313) == Rgba { r: 0x13, g: 0x13, b: 0x13, a: 255 });
    assert(hex(0xE0E0E0) == Rgba { r: 0xE0, g: 0xE0, b: 0xE0, a: 255 });
}

/// Useful characters for drawing a terminal user interface.
pub struct Elements;

impl Elements {
    pub const LARGE_RECT: char = '\u{2588}';
    pub const MEDIUM_RECT: char = '\u{25A0}';
    pub const SMALL_RECT: char = '\u{25AE}';
    pub const CIRCLE: char = '\u{25CF}';
    pub const DIAMOND: char = '\u{25C6}';
    pub const HORIZONTAL_LINE: char = '\u{2500}';
    pub const THICK_HORIZONTAL_LINE: char = '\u{2501}';
    pub const DASH_HORIZONTAL_LINE: char = '\u{254C}';
    pub const THICK_DASH_HORIZONTAL_LINE: char = '\u{254D}';
    pub const DOUBLE_HORIZONATAL_LINE: char = '\u{2550}';
    pub const VERTICAL_LINE: char = '\u{2502}';
    pub const THICK_VERTICAL_LINE: char = '\u{2503}';
    pub const DASH_VERTICAL_LINE: char = '\u{254E}';
    pub const THICK_DASH_VERTICAL_LINE: char = '\u{254F}';
    pub const DOUBLE_VERTICAL_LINE: char = '\u{2551}';
}

} // verus!
