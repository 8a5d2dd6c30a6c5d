//! The square textures, what each frame shows, and when the render loop stops.

use vstd::prelude::*;

verus! {

/// Side length, in pixels, of the coloured square drawn in the corner.
pub const TEXTURE_SIZE: u32 = 32;

/// Frames per second that the loop aims for.
pub const FRAMES_PER_SECOND: u32 = 60;

/// Fill colour of a generated square texture.
#[derive(Clone, Copy, Debug, PartialEq, Eq, Structural)]
pub enum TextureColor {
    Green,
    Blue,
}

/// An opaque colour as red, green and blue channels.
#[derive(Clone, Copy, Debug, PartialEq, Eq, Structural)]
pub struct Rgb {
    pub r: u8,
    pub g: u8,
    pub b: u8,
}

/// What is asked of the renderer for a square texture: a render target
/// `width` by `height` pixels in the renderer's default pixel format, then
/// filled with `fill`.
#[derive(Clone, Copy, Debug, PartialEq, Eq, Structural)]
pub struct TexturePlan {
    pub width: u32,
    pub height: u32,
    pub fill: Rgb,
}

/// How making a square texture ended.
#[derive(Clone, Copy, Debug, PartialEq, Eq, Structural)]
pub enum TextureOutcome {
    /// The texture was created and filled: it is handed out.
    Ready,
    /// The renderer could not create the texture: nothing is handed out.
    Unavailable,
    /// The texture was created but could not be filled: the program stops.
    FillFailed,
}

/// The channels of a texture colour.
pub open spec fn color_channels(color: TextureColor) -> (u8, u8, u8) {
    match color {
        TextureColor::Green => (0u8, 255u8, 0u8),
        TextureColor::Blue => (0u8, 0u8, 255u8),
    }
}

/// The colour that a square texture of the given variant is filled with.
pub fn fill_color(color: TextureColor) -> (r: Rgb)
    ensures
        (r.r, r.g, r.b) == color_channels(color),
{
    match color {
        TextureColor::Green => Rgb { r: 0, g: 255, b: 0 },
        TextureColor::Blue => Rgb { r: 0, g: 0, b: 255 },
    }
}

/// The texture to ask for: a square of side `size`, filled with the colour
/// of `color`.
pub fn texture_plan(color: TextureColor, size: u32) -> (r: TexturePlan)
    ensures
        r.width == size,
        r.height == size,
        (r.fill.r, r.fill.g, r.fill.b) == color_channels(color),
{
    TexturePlan { width: size, height: size, fill: fill_color(color) }
}

/// How making a texture ended, given whether the renderer created it and,
/// where it did, whether filling it succeeded. A texture that was not created
/// is not filled, so `filled` counts only where `created` holds.
pub fn texture_outcome(created: bool, filled: bool) -> (r: TextureOutcome)
    ensures
        !created ==> r == TextureOutcome::Unavailable,
        created && !filled ==> r == TextureOutcome::FillFailed,
        created && filled ==> r == TextureOutcome::Ready,
{
    if !created {
        TextureOutcome::Unavailable
    } else if !filled {
        TextureOutcome::FillFailed
    } else {
        TextureOutcome::Ready
    }
}

/// The colour the back buffer is cleared to before each frame: red.
pub fn background_color() -> (r: Rgb)
    ensures
        r.r == 255 && r.g == 0 && r.b == 0,
{
    Rgb { r: 255, g: 0, b: 0 }
}

/// The square shown during whole second `secs`: green on even seconds,
/// blue on odd ones.
pub open spec fn square_at(secs: nat) -> TextureColor {
    if secs % 2 == 0 {
        TextureColor::Green
    } else {
        TextureColor::Blue
    }
}

/// Which square to draw when `elapsed_secs` whole seconds have passed since
/// the loop started.
pub fn square_for_elapsed(elapsed_secs: u64) -> (r: TextureColor)
    ensures
        r == square_at(elapsed_secs as nat),
{
    if elapsed_secs % 2 == 0 {
        TextureColor::Green
    } else {
        TextureColor::Blue
    }
}

/// Nanoseconds the loop sleeps after presenting a frame.
pub fn frame_interval_nanos() -> (r: u32)
    ensures
        r == 1_000_000_000int / (FRAMES_PER_SECOND as int),
        r == 16_666_666,
{
    1_000_000_000u32 / FRAMES_PER_SECOND
}

/// Where the square is drawn: at the top left corner, `TEXTURE_SIZE` wide
/// and high, as `(x, y, width, height)`.
pub fn square_rect() -> (r: (i32, i32, u32, u32))
    ensures
        r == (0i32, 0i32, TEXTURE_SIZE, TEXTURE_SIZE),
{
    (0, 0, TEXTURE_SIZE, TEXTURE_SIZE)
}

/// A key, as far as the loop tells keys apart.
#[derive(Clone, Copy, Debug, PartialEq, Eq, Structural)]
pub enum Key {
    Escape,
    Other,
}

/// An input event, as far as the loop tells events apart.
#[derive(Clone, Copy, Debug, PartialEq, Eq, Structural)]
pub enum InputEvent {
    /// The window was asked to close.
    Quit,
    /// A key went down; `None` where the key has no key code.
    KeyDown(Option<Key>),
    /// Anything else.
    Other,
}

/// An event that ends the loop: a quit request, or Escape pressed.
pub open spec fn ends_loop(e: InputEvent) -> bool {
    e == InputEvent::Quit || e == InputEvent::KeyDown(Some(Key::Escape))
}

/// Whether the event ends the loop.
pub fn is_quit_event(e: InputEvent) -> (r: bool)
    ensures
        r == ends_loop(e),
{
    match e {
        InputEvent::Quit => true,
        InputEvent::KeyDown(Some(Key::Escape)) => true,
        _ => false,
    }
}

} // verus!
