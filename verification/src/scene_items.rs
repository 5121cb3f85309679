//! Colours as they leave the renderer: three 8-bit channels.

use crate::raster::{rgba_channels, rgba_from_channels};
use vstd::prelude::*;

verus! {

/// An 8-bit RGB colour.
#[derive(Clone, Copy, PartialEq, Eq, Debug, Structural)]
pub struct Color {
    pub red: u8,
    pub green: u8,
    pub blue: u8,
}

impl Color {
    /// The colour of a pixel whose ray hits nothing: a light sky blue.
    pub open spec fn sky() -> Color {
        Color { red: 135, green: 206, blue: 255 }
    }

    /// The colour of a pixel whose ray hits nothing.
    pub fn background() -> (color: Color)
        ensures
            color == Color::sky(),
    {
        Color { red: 135, green: 206, blue: 255 }
    }

    /// The three channels as a triple.
    pub open spec fn channels(self) -> (u8, u8, u8) {
        (self.red, self.green, self.blue)
    }

    /// The colour with the given channels.
    pub fn new_rgb(r: u8, g: u8, b: u8) -> (color: Color)
        ensures
            color == (Color { red: r, green: g, blue: b }),
    {
        Color { red: r, green: g, blue: b }
    }

    /// The same colour again.
    pub fn copy(&self) -> (color: Color)
        ensures
            color == *self,
    {
        Color { red: self.red, green: self.green, blue: self.blue }
    }

    pub fn red(&self) -> (r: u8)
        ensures
            r == self.red,
    {
        self.red
    }

    pub fn green(&self) -> (g: u8)
        ensures
            g == self.green,
    {
        self.green
    }

    pub fn blue(&self) -> (b: u8)
        ensures
            b == self.blue,
    {
        self.blue
    }

    /// The colour as an opaque pixel of the `image` crate: red, green, blue,
    /// and full alpha.
    pub fn to_rgba(&self) -> (pixel: image::Rgba<u8>)
        ensures
            rgba_channels(pixel) == seq![self.red, self.green, self.blue, 255u8],
    {
        rgba_from_channels(self.red, self.green, self.blue, 255)
    }
}

} // verus!
