//! The colours of the interface in its light and dark modes, after the
//! GNOME (GTK 4) palette.
use vstd::prelude::*;

verus! {

/// A colour as four premultiplied 8-bit channels.
#[derive(Clone, Copy, Debug)]
pub struct Rgba {
    pub r: u8,
    pub g: u8,
    pub b: u8,
    pub a: u8,
}

/// An opaque colour.
pub open spec fn opaque(r: u8, g: u8, b: u8) -> Rgba {
    Rgba { r, g, b, a: 255 }
}

/// A colour with premultiplied channels and alpha `a`.
pub open spec fn translucent(r: u8, g: u8, b: u8, a: u8) -> Rgba {
    Rgba { r, g, b, a }
}

/// The opaque colour with channels `r`, `g`, `b`.
pub fn rgb(r: u8, g: u8, b: u8) -> (c: Rgba)
    ensures
        c == opaque(r, g, b),
{
    Rgba { r, g, b, a: 255 }
}

/// The colour with premultiplied channels `r`, `g`, `b` and alpha `a`.
pub fn rgba_premultiplied(r: u8, g: u8, b: u8, a: u8) -> (c: Rgba)
    ensures
        c == translucent(r, g, b, a),
{
    Rgba { r, g, b, a }
}

/// The header bar and panels.
pub fn headerbar_bg(dark: bool) -> (c: Rgba)
    ensures
        c == if dark { opaque(48, 48, 48) } else { opaque(235, 235, 235) },
{
    if dark { rgb(48, 48, 48) } else { rgb(235, 235, 235) }
}

/// Windows.
pub fn window_bg(dark: bool) -> (c: Rgba)
    ensures
        c == if dark { opaque(36, 36, 36) } else { opaque(250, 250, 250) },
{
    if dark { rgb(36, 36, 36) } else { rgb(250, 250, 250) }
}

/// Views, such as the notes area.
pub fn view_bg(dark: bool) -> (c: Rgba)
    ensures
        c == if dark { opaque(30, 30, 30) } else { opaque(255, 255, 255) },
{
    if dark { rgb(30, 30, 30) } else { rgb(255, 255, 255) }
}

/// Text.
pub fn text_color(dark: bool) -> (c: Rgba)
    ensures
        c == if dark { opaque(255, 255, 255) } else { opaque(0, 0, 0) },
{
    if dark { rgb(255, 255, 255) } else { rgb(0, 0, 0) }
}

/// Borders: a faint white on dark, a faint black on light.
pub fn border_color(dark: bool) -> (c: Rgba)
    ensures
        c == if dark { translucent(255, 255, 255, 25) } else { translucent(0, 0, 0, 18) },
{
    if dark { rgba_premultiplied(255, 255, 255, 25) } else { rgba_premultiplied(0, 0, 0, 18) }
}

/// Code and text fields.
pub fn code_bg(dark: bool) -> (c: Rgba)
    ensures
        c == if dark { opaque(42, 42, 42) } else { opaque(244, 244, 244) },
{
    if dark { rgb(42, 42, 42) } else { rgb(244, 244, 244) }
}

/// The accent blue of selections, links and pressed widgets.
pub fn accent() -> (c: Rgba)
    ensures
        c == opaque(53, 132, 228),
{
    rgb(53, 132, 228)
}

/// A widget under the pointer: the accent, translucent.
pub fn hover_fill(dark: bool) -> (c: Rgba)
    ensures
        c == if dark { translucent(53, 132, 228, 51) } else { translucent(53, 132, 228, 31) },
{
    if dark { rgba_premultiplied(53, 132, 228, 51) } else { rgba_premultiplied(53, 132, 228, 31) }
}

/// An open menu or combo box.
pub fn open_bg(dark: bool) -> (c: Rgba)
    ensures
        c == if dark { opaque(60, 60, 60) } else { opaque(230, 230, 230) },
{
    if dark { rgb(60, 60, 60) } else { rgb(230, 230, 230) }
}

/// The radius of rounded widget corners, in points.
pub const CORNER_RADIUS: u8 = 6;

} // verus!
